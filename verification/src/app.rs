//! The explorer's state machine: the tree and task views, fuzzy go-to, the
//! add-issue flow, the status/priority pickers and close confirmation. Keys go
//! in, the new state and an action for the caller to perform come out.
use vstd::prelude::*;
use vstd::string::*;
use std::time::{Duration, Instant};
use crate::keys::{KeyCode, KeyEvent, is_plain};
use crate::model::{
    AddIssueDraft, Dependency, DependencyView, EditField, Issue, IssueGraph, IssueGraphView,
    IssueView, clone_strings, string_views, find_string, listed_without, context_after_close,
};
use crate::text::{
    push_char, pop_char, push_text, push_int, trim, trim_end, fuzzy_match, lowercase_of,
    is_subsequence, trim_of, trim_end_of, lines_of, joined, chars_of, string_from,
    int_text, str_eq, split_lines,
};
pub use crate::tree::TreeRow;
use crate::tree::{
    TreeRowView, row_views, path_views, tree_rows_of, build_tree_rows, find_path, paths_equal,
    create_row,
};

verus! {

pub const ISSUE_TYPES: [&'static str; 6] = ["task", "bug", "feature", "epic", "chore", "decision"];

pub const PRIORITIES: [i32; 5] = [0, 1, 2, 3, 4];

pub const STATUSES: [&'static str; 5] = ["open", "in_progress", "blocked", "deferred", "closed"];

/// How long `e` waits for a second key of an edit chord, in nanoseconds.
const EDIT_SEQUENCE_NANOS: u64 = 500_000_000;

#[verifier::external_type_specification]
#[verifier::external_body]
pub struct ExInstant(Instant);

/// `Instant::now`: the current time.
#[verifier::external_body]
fn now() -> Instant {
    Instant::now()
}

/// `Instant::elapsed`: the time since `start`; it depends on the clock, so
/// nothing is stated of it.
#[verifier::external_body]
fn elapsed_since(start: &Instant) -> Duration {
    start.elapsed()
}

/// The nanoseconds a `Duration` holds, as `Duration::as_nanos` counts them.
pub uninterp spec fn duration_nanos(d: Duration) -> u128;

/// `Duration::as_nanos`: the total nanoseconds of `d`, named by
/// [`duration_nanos`].
#[verifier::external_body]
pub(crate) fn nanos_of(d: &Duration) -> (r: u128)
    ensures
        r == duration_nanos(*d),
{
    d.as_nanos()
}

/// `Duration::from_nanos`: a duration of `n` nanoseconds, so that
/// `as_nanos` gives `n` back.
#[verifier::external_body]
pub(crate) fn duration_from_nanos(n: u64) -> (r: Duration)
    ensures
        duration_nanos(r) == n,
{
    Duration::from_nanos(n)
}

/// How long a pending `e` still waits, in nanoseconds, once `elapsed`
/// nanoseconds have passed since it was pressed: what is left of its half
/// second, never below zero.
pub open spec fn chord_time_left(elapsed: int) -> int {
    if elapsed >= 500_000_000 {
        0
    } else {
        500_000_000 - elapsed
    }
}

/// The nanoseconds a pending `e` still waits after `elapsed` nanoseconds
/// (see `chord_time_left`).
pub fn nanos_left(elapsed: u128) -> (r: u64)
    ensures
        r == chord_time_left(elapsed as int),
{
    if elapsed >= EDIT_SEQUENCE_NANOS as u128 {
        0
    } else {
        (EDIT_SEQUENCE_NANOS as u128 - elapsed) as u64
    }
}

#[derive(Clone, Debug, PartialEq, Eq)]
pub struct DetailFrame {
    pub issue_id: String,
    pub dependency_cursor: usize,
    pub scroll: usize,
}

pub struct DetailFrameView {
    pub issue_id: Seq<char>,
    pub dependency_cursor: usize,
    pub scroll: usize,
}

impl View for DetailFrame {
    type V = DetailFrameView;

    open spec fn view(&self) -> DetailFrameView {
        DetailFrameView {
            issue_id: self.issue_id@,
            dependency_cursor: self.dependency_cursor,
            scroll: self.scroll,
        }
    }
}

impl DetailFrame {
    fn duplicate(&self) -> (r: DetailFrame)
        ensures
            r@ == self@,
    {
        DetailFrame {
            issue_id: self.issue_id.clone(),
            dependency_cursor: self.dependency_cursor,
            scroll: self.scroll,
        }
    }
}

pub open spec fn frame_views(frames: Seq<DetailFrame>) -> Seq<DetailFrameView> {
    frames.map_values(|f: DetailFrame| f@)
}

#[derive(Clone, Copy, Debug, PartialEq, Eq)]
pub enum Screen {
    Tree,
    Detail,
}

#[derive(Clone, Copy, Debug, PartialEq, Eq)]
pub enum AddIssueStep {
    Title,
    Description,
    IssueType,
    Priority,
}

impl AddIssueStep {
    pub fn number(self) -> (n: usize)
        ensures
            n == match self {
                AddIssueStep::Title => 1usize,
                AddIssueStep::Description => 2,
                AddIssueStep::IssueType => 3,
                AddIssueStep::Priority => 4,
            },
    {
        match self {
            AddIssueStep::Title => 1,
            AddIssueStep::Description => 2,
            AddIssueStep::IssueType => 3,
            AddIssueStep::Priority => 4,
        }
    }
}

#[derive(Clone, Copy, Debug, PartialEq, Eq)]
pub enum AddIssueField {
    Title,
    Description,
}

#[derive(Clone, Copy, Debug, PartialEq, Eq)]
pub enum PickerKind {
    Status,
    Priority,
}

/// A floating single-choice menu for updating the current issue in place.
#[derive(Clone, Debug, PartialEq, Eq)]
pub struct Picker {
    pub kind: PickerKind,
    pub issue_id: String,
    pub index: usize,
}

pub struct PickerView {
    pub kind: PickerKind,
    pub issue_id: Seq<char>,
    pub index: usize,
}

impl View for Picker {
    type V = PickerView;

    open spec fn view(&self) -> PickerView {
        PickerView { kind: self.kind, issue_id: self.issue_id@, index: self.index }
    }
}

/// The label `P<n>` of priority `n`.
pub open spec fn priority_label(n: i32) -> Seq<char> {
    seq!['P'] + int_text(n as int)
}

/// The labels a picker of this kind offers.
pub open spec fn picker_options(kind: PickerKind) -> Seq<Seq<char>> {
    match kind {
        PickerKind::Status => seq![
            STATUSES[0]@,
            STATUSES[1]@,
            STATUSES[2]@,
            STATUSES[3]@,
            STATUSES[4]@,
        ],
        PickerKind::Priority => seq![
            priority_label(PRIORITIES[0]),
            priority_label(PRIORITIES[1]),
            priority_label(PRIORITIES[2]),
            priority_label(PRIORITIES[3]),
            priority_label(PRIORITIES[4]),
        ],
    }
}

/// `P<n>` for priority `n`.
pub fn priority_text(n: i32) -> (s: String)
    ensures
        s@ == priority_label(n),
{
    let mut s = String::new();
    push_char(&mut s, 'P');
    push_int(&mut s, n as i64);
    assert(s@ =~= priority_label(n));
    s
}

impl Picker {
    pub fn options(&self) -> (r: Vec<String>)
        ensures
            string_views(r@) == picker_options(self.kind),
    {
        let mut r: Vec<String> = Vec::new();
        match self.kind {
            PickerKind::Status => {
                let mut i: usize = 0;
                while i < 5
                    invariant
                        i <= 5,
                        string_views(r@) == seq![
                            STATUSES[0]@,
                            STATUSES[1]@,
                            STATUSES[2]@,
                            STATUSES[3]@,
                            STATUSES[4]@,
                        ].take(i as int),
                    decreases 5 - i,
                {
                    let ghost before = r@;
                    r.push(String::from_str(STATUSES[i]));
                    i = i + 1;
                    proof {
                        assert(string_views(r@) =~= string_views(before).push(STATUSES[i - 1]@));
                        assert(string_views(r@) =~= seq![
                            STATUSES[0]@,
                            STATUSES[1]@,
                            STATUSES[2]@,
                            STATUSES[3]@,
                            STATUSES[4]@,
                        ].take(i as int));
                    }
                }
            },
            PickerKind::Priority => {
                let mut i: usize = 0;
                while i < 5
                    invariant
                        i <= 5,
                        string_views(r@) == seq![
                            priority_label(PRIORITIES[0]),
                            priority_label(PRIORITIES[1]),
                            priority_label(PRIORITIES[2]),
                            priority_label(PRIORITIES[3]),
                            priority_label(PRIORITIES[4]),
                        ].take(i as int),
                    decreases 5 - i,
                {
                    let ghost before = r@;
                    r.push(priority_text(PRIORITIES[i]));
                    i = i + 1;
                    proof {
                        assert(string_views(r@) =~= string_views(before).push(
                            priority_label(PRIORITIES[i - 1]),
                        ));
                        assert(string_views(r@) =~= seq![
                            priority_label(PRIORITIES[0]),
                            priority_label(PRIORITIES[1]),
                            priority_label(PRIORITIES[2]),
                            priority_label(PRIORITIES[3]),
                            priority_label(PRIORITIES[4]),
                        ].take(i as int));
                    }
                }
            },
        }
        r
    }
}

pub struct AddIssueDraftView {
    pub parent_id: Option<Seq<char>>,
    pub title: Seq<char>,
    pub description: Seq<char>,
    pub issue_type: Seq<char>,
    pub priority: i32,
}

pub open spec fn opt_text(o: Option<String>) -> Option<Seq<char>> {
    match o {
        Some(s) => Some(s@),
        None => None,
    }
}

impl View for AddIssueDraft {
    type V = AddIssueDraftView;

    open spec fn view(&self) -> AddIssueDraftView {
        AddIssueDraftView {
            parent_id: opt_text(self.parent_id),
            title: self.title@,
            description: self.description@,
            issue_type: self.issue_type@,
            priority: self.priority,
        }
    }
}

fn clone_opt(o: &Option<String>) -> (r: Option<String>)
    ensures
        opt_text(r) == opt_text(*o),
{
    match o {
        Some(s) => Some(s.clone()),
        None => None,
    }
}

#[derive(Clone, Debug, PartialEq, Eq)]
pub struct AddIssueFlow {
    pub parent_id: Option<String>,
    pub title: String,
    pub description: String,
    pub step: AddIssueStep,
    pub issue_type_index: usize,
    pub priority_index: usize,
    pub(crate) confirming_cancel: bool,
}

pub struct AddIssueFlowView {
    pub parent_id: Option<Seq<char>>,
    pub title: Seq<char>,
    pub description: Seq<char>,
    pub step: AddIssueStep,
    pub issue_type_index: usize,
    pub priority_index: usize,
    pub confirming_cancel: bool,
}

impl View for AddIssueFlow {
    type V = AddIssueFlowView;

    closed spec fn view(&self) -> AddIssueFlowView {
        AddIssueFlowView {
            parent_id: opt_text(self.parent_id),
            title: self.title@,
            description: self.description@,
            step: self.step,
            issue_type_index: self.issue_type_index,
            priority_index: self.priority_index,
            confirming_cancel: self.confirming_cancel,
        }
    }
}

/// The issue a finished flow asks `bd` to create: the title trimmed, the
/// description without trailing whitespace.
pub open spec fn draft_of(f: AddIssueFlowView) -> AddIssueDraftView {
    AddIssueDraftView {
        parent_id: f.parent_id,
        title: trim_of(f.title),
        description: trim_end_of(f.description),
        issue_type: ISSUE_TYPES[f.issue_type_index as int]@,
        priority: PRIORITIES[f.priority_index as int],
    }
}

impl AddIssueFlow {
    /// The view of a flow holds its public fields as they are.
    pub(crate) proof fn lemma_view_fields(&self)
        ensures
            self@.parent_id == opt_text(self.parent_id),
            self@.title == self.title@,
            self@.description == self.description@,
            self@.step == self.step,
            self@.issue_type_index == self.issue_type_index,
            self@.priority_index == self.priority_index,
    {
    }

    pub fn issue_type(&self) -> (r: &'static str)
        requires
            self@.issue_type_index < 6,
        ensures
            r@ == ISSUE_TYPES[self@.issue_type_index as int]@,
    {
        ISSUE_TYPES[self.issue_type_index]
    }

    pub fn priority(&self) -> (r: i32)
        requires
            self@.priority_index < 5,
        ensures
            r == PRIORITIES[self@.priority_index as int],
    {
        PRIORITIES[self.priority_index]
    }

    pub fn is_confirming_cancel(&self) -> (r: bool)
        ensures
            r == self@.confirming_cancel,
    {
        self.confirming_cancel
    }

    fn draft(&self) -> (r: AddIssueDraft)
        requires
            self@.issue_type_index < 6,
            self@.priority_index < 5,
        ensures
            r@ == draft_of(self@),
    {
        AddIssueDraft {
            parent_id: clone_opt(&self.parent_id),
            title: trim(self.title.as_str()),
            description: trim_end(self.description.as_str()),
            issue_type: String::from_str(self.issue_type()),
            priority: self.priority(),
        }
    }

    fn duplicate(&self) -> (r: AddIssueFlow)
        ensures
            r@ == self@,
    {
        AddIssueFlow {
            parent_id: clone_opt(&self.parent_id),
            title: self.title.clone(),
            description: self.description.clone(),
            step: self.step,
            issue_type_index: self.issue_type_index,
            priority_index: self.priority_index,
            confirming_cancel: self.confirming_cancel,
        }
    }
}

#[derive(Clone, Debug, PartialEq, Eq)]
pub enum Action {
    NoOp,
    Quit,
    CloseIssue(String),
    Edit(EditField),
    EditAddIssue(AddIssueField),
    CreateIssue(AddIssueDraft),
    SetStatus(String, &'static str),
    SetPriority(String, i32),
}

pub enum ActionView {
    NoOp,
    Quit,
    CloseIssue(Seq<char>),
    Edit(EditField),
    EditAddIssue(AddIssueField),
    CreateIssue(AddIssueDraftView),
    SetStatus(Seq<char>, Seq<char>),
    SetPriority(Seq<char>, i32),
}

impl View for Action {
    type V = ActionView;

    open spec fn view(&self) -> ActionView {
        match self {
            Action::NoOp => ActionView::NoOp,
            Action::Quit => ActionView::Quit,
            Action::CloseIssue(id) => ActionView::CloseIssue(id@),
            Action::Edit(f) => ActionView::Edit(*f),
            Action::EditAddIssue(f) => ActionView::EditAddIssue(*f),
            Action::CreateIssue(d) => ActionView::CreateIssue(d@),
            Action::SetStatus(id, s) => ActionView::SetStatus(id@, s@),
            Action::SetPriority(id, p) => ActionView::SetPriority(id@, *p),
        }
    }
}

/// The mutually exclusive input modes layered over the tree and task views.
pub(crate) enum Mode {
    Normal,
    Search { query: String, origin_cursor: usize, origin_scroll: usize },
    ConfirmClose(String),
    AddIssue(AddIssueFlow),
    Picker(Picker),
}

pub enum ModeView {
    Normal,
    Search { query: Seq<char>, origin_cursor: usize, origin_scroll: usize },
    ConfirmClose(Seq<char>),
    AddIssue(AddIssueFlowView),
    Picker(PickerView),
}

spec fn mode_view(m: Mode) -> ModeView {
    match m {
        Mode::Normal => ModeView::Normal,
        Mode::Search { query, origin_cursor, origin_scroll } => ModeView::Search {
            query: query@,
            origin_cursor,
            origin_scroll,
        },
        Mode::ConfirmClose(id) => ModeView::ConfirmClose(id@),
        Mode::AddIssue(f) => ModeView::AddIssue(f@),
        Mode::Picker(p) => ModeView::Picker(p@),
    }
}

pub struct App {
    pub graph: IssueGraph,
    pub rows: Vec<TreeRow>,
    pub cursor: usize,
    pub scroll: usize,
    pub viewport: usize,
    pub(crate) mode: Mode,
    pub(crate) tree_rows: Vec<TreeRow>,
    pub(crate) expanded: Vec<Vec<String>>,
    pub(crate) history: Vec<DetailFrame>,
    pub(crate) edit_key_started: Option<Instant>,
    pub(crate) status_message: Option<String>,
}

/// The state of the explorer. `expanded` is the set of expanded tree paths,
/// `tree_rows` the rows of the tree (kept while search shows a filtered
/// list), `history` the stack of task views (the tree when empty), and
/// `chord_pending` whether an `e` waits for its second key.
pub struct AppView {
    pub graph: IssueGraphView,
    pub rows: Seq<TreeRowView>,
    pub cursor: usize,
    pub scroll: usize,
    pub viewport: usize,
    pub mode: ModeView,
    pub tree_rows: Seq<TreeRowView>,
    pub expanded: Set<Seq<Seq<char>>>,
    pub history: Seq<DetailFrameView>,
    pub chord_pending: bool,
    pub status: Option<Seq<char>>,
}

impl View for App {
    type V = AppView;

    closed spec fn view(&self) -> AppView {
        AppView {
            graph: self.graph@,
            rows: row_views(self.rows@),
            cursor: self.cursor,
            scroll: self.scroll,
            viewport: self.viewport,
            mode: mode_view(self.mode),
            tree_rows: row_views(self.tree_rows@),
            expanded: path_views(self.expanded@).to_set(),
            history: frame_views(self.history@),
            chord_pending: self.edit_key_started is Some,
            status: opt_text(self.status_message),
        }
    }
}

impl AppView {
    /// What every state of the explorer keeps: the tree starts with its create
    /// entry; the rows shown are the tree's, or during go-to exactly the tree
    /// rows that match the query; the cursor stays on them; and menu
    /// selections stay within their options.
    pub open spec fn wf(self) -> bool {
        &&& self.wf_apart_from_matches()
        &&& (self.mode matches ModeView::Search { query, .. } ==> self.rows == search_rows(
            self.tree_rows,
            query,
        ))
    }

    /// All of `wf` but that go-to shows the matches of its query: what holds
    /// while the matches are being rebuilt.
    pub open spec fn wf_apart_from_matches(self) -> bool {
        &&& self.graph.wf()
        &&& self.tree_rows.len() >= 1
        &&& self.tree_rows[0] == create_row()
        &&& (self.mode !is Search ==> self.rows == self.tree_rows)
        &&& self.cursor <= last_index(self.rows.len())
        &&& (self.mode !is Search ==> self.rows.len() >= 1)
        &&& (self.mode matches ModeView::Picker(p) ==> p.index < 5)
        &&& (self.mode matches ModeView::AddIssue(f) ==> f.issue_type_index < 6 && f.priority_index
            < 5)
    }

    pub open spec fn screen(self) -> Screen {
        if self.history.len() == 0 {
            Screen::Tree
        } else {
            Screen::Detail
        }
    }

    /// The issue of the selected row.
    pub open spec fn tree_issue(self) -> Option<IssueView> {
        if self.cursor < self.rows.len() {
            self.graph.issue(self.rows[self.cursor as int].issue_id)
        } else {
            None
        }
    }

    /// The issue of the task view on top.
    pub open spec fn detail_issue(self) -> Option<IssueView> {
        if self.history.len() > 0 {
            self.graph.issue(self.history.last().issue_id)
        } else {
            None
        }
    }

    /// The issue the edit, status, priority and close keys act on.
    pub open spec fn current_issue(self) -> Option<IssueView> {
        if self.history.len() == 0 {
            self.tree_issue()
        } else {
            self.detail_issue()
        }
    }

    pub open spec fn can_close(self) -> bool {
        self.detail_issue() matches Some(i) && self.graph.is_listed(i.id)
    }
}

/// The first row whose path is `p`.
pub open spec fn first_path_index(rows: Seq<TreeRowView>, p: Seq<Seq<char>>) -> Option<int>
    decreases rows.len(),
{
    if rows.len() == 0 {
        None
    } else {
        match first_path_index(rows.drop_last(), p) {
            Some(k) => Some(k),
            None => if rows.last().path == p {
                Some(rows.len() - 1)
            } else {
                None
            },
        }
    }
}

pub proof fn lemma_first_path_index(rows: Seq<TreeRowView>, p: Seq<Seq<char>>)
    ensures
        match first_path_index(rows, p) {
            Some(k) => 0 <= k < rows.len() && rows[k].path == p && forall|m: int|
                0 <= m < k ==> (#[trigger] rows[m]).path != p,
            None => forall|m: int| 0 <= m < rows.len() ==> (#[trigger] rows[m]).path != p,
        },
    decreases rows.len(),
{
    if rows.len() > 0 {
        lemma_first_path_index(rows.drop_last(), p);
        match first_path_index(rows.drop_last(), p) {
            Some(k) => {
                assert(rows[k] == rows.drop_last()[k]);
                assert forall|m: int| 0 <= m < k implies (#[trigger] rows[m]).path != p by {
                    assert(rows[m] == rows.drop_last()[m]);
                }
            },
            None => {
                assert forall|m: int| 0 <= m < rows.len() - 1 implies (#[trigger] rows[m]).path
                    != p by {
                    assert(rows[m] == rows.drop_last()[m]);
                }
            },
        }
    }
}

/// The row position to select among `rows` for a previously selected path:
/// where that path is now, or else the old cursor.
pub open spec fn reselect(rows: Seq<TreeRowView>, old_rows: Seq<TreeRowView>, cursor: usize) -> usize {
    if cursor < old_rows.len() {
        match first_path_index(rows, old_rows[cursor as int].path) {
            Some(k) => k as usize,
            None => cursor,
        }
    } else {
        cursor
    }
}

pub open spec fn min_usize(a: usize, b: usize) -> usize {
    if a <= b {
        a
    } else {
        b
    }
}

pub open spec fn last_index(len: nat) -> usize {
    if len == 0 {
        0
    } else {
        (len - 1) as usize
    }
}

/// The state after the tree rows are rebuilt from the graph and the expanded
/// paths; the selection follows its path when that path is still shown.
pub open spec fn rebuilt(s: AppView) -> AppView {
    let rows = tree_rows_of(s.graph, s.expanded, None).0;
    AppView {
        rows,
        tree_rows: rows,
        cursor: min_usize(reselect(rows, s.rows, s.cursor), last_index(rows.len())),
        ..s
    }
}

/// Whether `p` runs from a root of `g` down its tree edges.
pub open spec fn path_in_tree(g: IssueGraphView, p: Seq<Seq<char>>) -> bool {
    &&& p.len() > 0
    &&& g.roots.contains(p[0])
    &&& forall|i: int| 0 <= i < p.len() - 1 ==> #[trigger] g.children_of(p[i]).contains(p[i + 1])
}

/// The issues at the end of expanded paths that no longer run through `g`:
/// their branches open again wherever the issue now stands.
pub open spec fn moved_ids(g: IssueGraphView, expanded: Set<Seq<Seq<char>>>) -> Set<Seq<char>> {
    Set::new(
        |id: Seq<char>|
            exists|p: Seq<Seq<char>>|
                #[trigger] expanded.contains(p) && !path_in_tree(g, p) && p.len() > 0 && p.last()
                    == id,
    )
}

/// The expanded paths that still run through `g`.
pub open spec fn kept_paths(g: IssueGraphView, expanded: Set<Seq<Seq<char>>>) -> Set<
    Seq<Seq<char>>,
> {
    expanded.filter(|p: Seq<Seq<char>>| path_in_tree(g, p))
}

pub open spec fn distance(a: int, b: int) -> int {
    if a >= b {
        a - b
    } else {
        b - a
    }
}

/// Among the first `n` rows, the first of those nearest to `c` that show
/// the issue `id`.
pub open spec fn nearest_issue_index(rows: Seq<TreeRowView>, id: Seq<char>, c: int, n: nat) -> Option<
    int,
>
    decreases n,
{
    if n == 0 || n > rows.len() {
        None
    } else {
        let best = nearest_issue_index(rows, id, c, (n - 1) as nat);
        let k = n - 1;
        if rows[k].issue_id == id && match best {
            Some(j) => distance(k, c) < distance(j, c),
            None => true,
        } {
            Some(k)
        } else {
            best
        }
    }
}

proof fn lemma_nearest_issue_index(rows: Seq<TreeRowView>, id: Seq<char>, c: int, n: nat)
    requires
        n <= rows.len(),
    ensures
        match nearest_issue_index(rows, id, c, n) {
            Some(k) => 0 <= k < n && rows[k].issue_id == id,
            None => forall|m: int| 0 <= m < n ==> (#[trigger] rows[m]).issue_id != id,
        },
    decreases n,
{
    if n > 0 {
        lemma_nearest_issue_index(rows, id, c, (n - 1) as nat);
    }
}

/// The task views whose issue is still in `g`, each with its dependency
/// cursor moved back onto the issue's dependencies.
pub open spec fn kept_frames(g: IssueGraphView, h: Seq<DetailFrameView>) -> Seq<DetailFrameView>
    decreases h.len(),
{
    if h.len() == 0 {
        seq![]
    } else {
        let before = kept_frames(g, h.drop_last());
        let f = h.last();
        match g.issue(f.issue_id) {
            Some(issue) => before.push(
                DetailFrameView {
                    dependency_cursor: min_usize(
                        f.dependency_cursor,
                        last_index(issue.dependencies.len()),
                    ),
                    ..f
                },
            ),
            None => before,
        }
    }
}

pub open spec fn saturating_diff(a: usize, b: usize) -> usize {
    if a >= b {
        (a - b) as usize
    } else {
        0
    }
}

/// The row selected before a refresh, with the cursor and scroll it had: during
/// search, the tree row the search started from.
pub open spec fn refresh_anchor(s: AppView) -> (Option<TreeRowView>, usize, usize) {
    match s.mode {
        ModeView::Search { origin_cursor, origin_scroll, .. } => {
            let c = min_usize(origin_cursor, last_index(s.tree_rows.len()));
            (
                if c < s.tree_rows.len() {
                    Some(s.tree_rows[c as int])
                } else {
                    None
                },
                c,
                origin_scroll,
            )
        },
        _ => (
            if s.cursor < s.rows.len() {
                Some(s.rows[s.cursor as int])
            } else {
                None
            },
            s.cursor,
            s.scroll,
        ),
    }
}

/// Where the cursor lands in `rows` after a refresh: on the same path if it is
/// still shown, else on the nearest row of the same issue, else where it was.
pub open spec fn refresh_target(rows: Seq<TreeRowView>, anchor: Option<TreeRowView>, c: usize) -> int {
    match anchor {
        Some(row) => match first_path_index(rows, row.path) {
            Some(k) => k,
            None => match nearest_issue_index(rows, row.issue_id, c as int, rows.len()) {
                Some(k) => k,
                None => c as int,
            },
        },
        None => c as int,
    }
}

/// The state after the graph is replaced by a reloaded `g`.
pub open spec fn refreshed(s: AppView, g: IssueGraphView) -> AppView {
    let anchor = refresh_anchor(s);
    let offset = saturating_diff(anchor.1, anchor.2);
    let kept = kept_paths(g, s.expanded);
    let built = tree_rows_of(g, kept, Some(moved_ids(g, s.expanded)));
    let rows = built.0;
    let target = refresh_target(rows, anchor.0, anchor.1);
    let last = last_index(rows.len()) as int;
    let cursor = (if target <= last {
        target
    } else {
        last
    }) as usize;
    AppView {
        graph: g,
        rows,
        cursor,
        scroll: saturating_diff(cursor, offset),
        mode: if s.mode is AddIssue {
            s.mode
        } else {
            ModeView::Normal
        },
        tree_rows: rows,
        expanded: kept.union(built.1.to_set()),
        history: kept_frames(g, s.history),
        chord_pending: false,
        ..s
    }
}

/// The first row shown when `rows` rows are listed `height` at a time with the
/// cursor at `cursor`: the old `scroll` brought back so the list does not run
/// past its end, then moved the least that shows the cursor.
pub open spec fn tree_scroll_of(rows: nat, cursor: nat, scroll: nat, height: nat) -> nat {
    let kept = if scroll + height > rows {
        if rows >= height {
            (rows - height) as nat
        } else {
            0
        }
    } else {
        scroll
    };
    let shown = if cursor < kept {
        cursor
    } else {
        kept
    };
    if cursor >= shown + height {
        (cursor + 1 - height) as nat
    } else {
        shown
    }
}

/// The state of a fresh explorer over `g`: every root collapsed, the first
/// issue selected (or the create entry when there is none).
pub open spec fn initial_state(g: IssueGraphView) -> AppView {
    let rows = tree_rows_of(g, Set::empty(), None).0;
    AppView {
        graph: g,
        rows,
        cursor: min_usize(1, last_index(rows.len())),
        scroll: 0,
        viewport: 1,
        mode: ModeView::Normal,
        tree_rows: rows,
        expanded: Set::empty(),
        history: seq![],
        chord_pending: false,
        status: None,
    }
}

fn clone_rows(rows: &Vec<TreeRow>) -> (r: Vec<TreeRow>)
    ensures
        row_views(r@) == row_views(rows@),
{
    let mut r: Vec<TreeRow> = Vec::new();
    let mut i: usize = 0;
    while i < rows.len()
        invariant
            i <= rows@.len(),
            row_views(r@) == row_views(rows@).take(i as int),
        decreases rows@.len() - i,
    {
        let ghost before = r@;
        let row = rows[i].duplicate();
        r.push(row);
        i = i + 1;
        proof {
            assert(row_views(r@) =~= row_views(before).push(row@));
            assert(row_views(r@) =~= row_views(rows@).take(i as int));
        }
    }
    assert(row_views(rows@).take(rows@.len() as int) =~= row_views(rows@));
    r
}

fn find_row_path(rows: &Vec<TreeRow>, path: &Vec<String>) -> (r: Option<usize>)
    ensures
        match r {
            Some(k) => first_path_index(row_views(rows@), string_views(path@)) == Some(k as int),
            None => first_path_index(row_views(rows@), string_views(path@)) is None,
        },
{
    let ghost rv = row_views(rows@);
    proof {
        lemma_first_path_index(rv, string_views(path@));
    }
    let mut k: usize = 0;
    while k < rows.len()
        invariant
            rv == row_views(rows@),
            k <= rows@.len(),
            forall|m: int| 0 <= m < k ==> (#[trigger] rv[m]).path != string_views(path@),
        decreases rows@.len() - k,
    {
        if paths_equal(&rows[k].path, path) {
            proof {
                lemma_first_path_index(rv, string_views(path@));
                assert(rv[k as int].path == string_views(path@));
                match first_path_index(rv, string_views(path@)) {
                    Some(j) => {
                        if j < k {
                            assert(rv[j].path != string_views(path@));
                        } else if j > k {
                            assert(rv[k as int].path != string_views(path@));
                        }
                    },
                    None => {
                        assert(rv[k as int].path != string_views(path@));
                    },
                }
            }
            return Some(k);
        }
        k = k + 1;
    }
    proof {
        lemma_first_path_index(rv, string_views(path@));
        if let Some(j) = first_path_index(rv, string_views(path@)) {
            assert(rv[j].path != string_views(path@));
        }
    }
    None
}

pub open spec fn issue_ref_view(o: Option<&Issue>) -> Option<IssueView> {
    match o {
        Some(i) => Some(i@),
        None => None,
    }
}

/// The lines of a title edited in `$EDITOR`, trimmed, without the blank ones.
pub open spec fn kept_lines(lines: Seq<Seq<char>>) -> Seq<Seq<char>>
    decreases lines.len(),
{
    if lines.len() == 0 {
        seq![]
    } else {
        let rest = kept_lines(lines.drop_last());
        if trim_of(lines.last()).len() > 0 {
            rest.push(trim_of(lines.last()))
        } else {
            rest
        }
    }
}

/// A title as the flow keeps it from editor text: the non-blank lines,
/// trimmed, joined by single spaces.
pub open spec fn title_from_editor(text: Seq<char>) -> Seq<char> {
    joined(kept_lines(lines_of(text)), " "@)
}

/// The dependency selected in the task view on top.
pub open spec fn selected_dependency_of(s: AppView) -> Option<DependencyView> {
    if s.history.len() > 0 {
        match s.graph.issue(s.history.last().issue_id) {
            Some(i) => if s.history.last().dependency_cursor < i.dependencies.len() {
                Some(i.dependencies[s.history.last().dependency_cursor as int])
            } else {
                None
            },
            None => None,
        }
    } else {
        None
    }
}

/// The state once editor text is stored in the add-issue flow's field.
pub open spec fn with_field_text(s: AppView, field: AddIssueField, text: Seq<char>) -> AppView {
    match s.mode {
        ModeView::AddIssue(f) => AppView {
            mode: ModeView::AddIssue(
                match field {
                    AddIssueField::Title => AddIssueFlowView { title: title_from_editor(text), ..f },
                    AddIssueField::Description => AddIssueFlowView {
                        description: trim_end_of(text),
                        ..f
                    },
                },
            ),
            ..s
        },
        _ => s,
    }
}

proof fn lemma_frame_views_update()
    ensures
        forall|s: Seq<DetailFrame>, k: int, x: DetailFrame|
            0 <= k < s.len() ==> #[trigger] frame_views(s.update(k, x)) == frame_views(s).update(
                k,
                x@,
            ),
{
    assert forall|s: Seq<DetailFrame>, k: int, x: DetailFrame|
        0 <= k < s.len() implies #[trigger] frame_views(s.update(k, x)) == frame_views(s).update(
        k,
        x@,
    ) by {
        assert(frame_views(s.update(k, x)) =~= frame_views(s).update(k, x@));
    }
}

/// The state with the task view on top replaced by `frame`.
pub open spec fn frame_replaced(s: AppView, frame: DetailFrameView) -> AppView {
    AppView { history: s.history.update(s.history.len() - 1, frame), ..s }
}


// ---------------------------------------------------------------------------
// Transitions of the explorer, as functions of its state.

pub open spec fn clamp(x: int, lo: int, hi: int) -> int {
    if x < lo {
        lo
    } else if x > hi {
        hi
    } else {
        x
    }
}

/// The cursor moved by `delta` rows, kept on a row.
pub open spec fn cursor_moved(s: AppView, delta: int) -> AppView {
    AppView { cursor: clamp(s.cursor + delta, 0, last_index(s.rows.len()) as int) as usize, ..s }
}

/// The last dependency position of the task view on top (0 without one).
pub open spec fn last_dependency(s: AppView) -> usize {
    match s.detail_issue() {
        Some(i) => last_index(i.dependencies.len()),
        None => 0,
    }
}

/// The dependency cursor of the task view on top moved by `delta`.
pub open spec fn dependency_cursor_moved(s: AppView, delta: int) -> AppView {
    if s.history.len() > 0 {
        let f = s.history.last();
        frame_replaced(
            s,
            DetailFrameView {
                dependency_cursor: clamp(
                    f.dependency_cursor + delta,
                    0,
                    last_dependency(s) as int,
                ) as usize,
                ..f
            },
        )
    } else {
        s
    }
}

/// A fresh task view of `id`.
pub open spec fn frame_of(id: Seq<char>) -> DetailFrameView {
    DetailFrameView { issue_id: id, dependency_cursor: 0, scroll: 0 }
}

/// The selected issue opened in a task view (the create entry opens nothing).
pub open spec fn issue_opened(s: AppView) -> AppView {
    if s.cursor < s.rows.len() && s.rows[s.cursor as int].path.len() > 0 {
        AppView { history: s.history.push(frame_of(s.rows[s.cursor as int].issue_id)), ..s }
    } else {
        s
    }
}

/// Close confirmation asked for the current issue when it is listed.
pub open spec fn close_confirmation_started(s: AppView) -> AppView {
    match s.current_issue() {
        Some(i) => if s.graph.is_listed(i.id) {
            AppView { mode: ModeView::ConfirmClose(i.id), ..s }
        } else {
            s
        },
        None => s,
    }
}

/// A new add-issue flow under `parent` (top level when `None`), at the title,
/// with type `task` and priority P1 preselected.
pub open spec fn add_issue_started(s: AppView, parent: Option<Seq<char>>) -> AppView {
    AppView {
        chord_pending: false,
        mode: ModeView::AddIssue(
            AddIssueFlowView {
                parent_id: parent,
                title: seq![],
                description: seq![],
                step: AddIssueStep::Title,
                issue_type_index: 0,
                priority_index: 1,
                confirming_cancel: false,
            },
        ),
        ..s
    }
}

/// The first position of `status` among the statuses.
pub open spec fn status_position(status: Seq<char>) -> Option<usize> {
    if STATUSES[0]@ == status {
        Some(0)
    } else if STATUSES[1]@ == status {
        Some(1)
    } else if STATUSES[2]@ == status {
        Some(2)
    } else if STATUSES[3]@ == status {
        Some(3)
    } else if STATUSES[4]@ == status {
        Some(4)
    } else {
        None
    }
}

/// The first position of `priority` among the priorities.
pub open spec fn priority_position(priority: i32) -> Option<usize> {
    if 0 <= priority <= 4 {
        Some(priority as usize)
    } else {
        None
    }
}

/// A picker for the current issue preselecting its status (or `open`) or
/// its priority (or P1).
pub open spec fn picker_started(s: AppView, kind: PickerKind) -> AppView {
    match s.current_issue() {
        Some(i) => AppView {
            chord_pending: false,
            mode: ModeView::Picker(
                PickerView {
                    kind,
                    issue_id: i.id,
                    index: match kind {
                        PickerKind::Status => match status_position(i.status) {
                            Some(k) => k,
                            None => 0,
                        },
                        PickerKind::Priority => match priority_position(i.priority) {
                            Some(k) => k,
                            None => 1,
                        },
                    },
                },
            ),
            ..s
        },
        None => s,
    }
}

/// The selected row has children to fold or unfold.
pub open spec fn selected_row_has_children(s: AppView) -> bool {
    s.cursor < s.rows.len() && !s.rows[s.cursor as int].cycle && s.graph.children_of(
        s.rows[s.cursor as int].issue_id,
    ).len() > 0
}

/// Tab: the selected row's fold state flipped.
pub open spec fn toggled(s: AppView) -> AppView {
    if selected_row_has_children(s) {
        let p = s.rows[s.cursor as int].path;
        rebuilt(
            AppView {
                expanded: if s.expanded.contains(p) {
                    s.expanded.remove(p)
                } else {
                    s.expanded.insert(p)
                },
                ..s
            },
        )
    } else {
        s
    }
}

/// Right: unfold the selected row, or step onto its first child when it is
/// unfolded already.
pub open spec fn expanded_or_entered(s: AppView) -> AppView {
    if selected_row_has_children(s) {
        let p = s.rows[s.cursor as int].path;
        if !s.expanded.contains(p) {
            rebuilt(AppView { expanded: s.expanded.insert(p), ..s })
        } else if s.cursor + 1 < s.rows.len() && p.is_prefix_of(s.rows[s.cursor + 1].path) {
            AppView { cursor: (s.cursor + 1) as usize, ..s }
        } else {
            s
        }
    } else {
        s
    }
}

/// Left: fold the selected row, or step onto its parent row.
pub open spec fn collapsed_or_left(s: AppView) -> AppView {
    if s.cursor < s.rows.len() {
        let p = s.rows[s.cursor as int].path;
        if s.expanded.contains(p) {
            rebuilt(AppView { expanded: s.expanded.remove(p), ..s })
        } else if p.len() <= 1 {
            s
        } else {
            match first_path_index(s.rows, p.drop_last()) {
                Some(k) => AppView { cursor: k as usize, ..s },
                None => s,
            }
        }
    } else {
        s
    }
}

/// Whether a row's issue id fuzzy-matches `query`.
pub open spec fn id_matches(id: Seq<char>, query: Seq<char>) -> bool {
    query.len() == 0 || is_subsequence(lowercase_of(query), lowercase_of(id))
}

/// The rows go-to shows: the tree rows (not the create entry) whose id
/// matches the query.
pub open spec fn search_rows(rows: Seq<TreeRowView>, query: Seq<char>) -> Seq<TreeRowView>
    decreases rows.len(),
{
    if rows.len() == 0 {
        seq![]
    } else {
        let rest = search_rows(rows.drop_last(), query);
        if rows.last().path.len() > 0 && id_matches(rows.last().issue_id, query) {
            rest.push(rows.last())
        } else {
            rest
        }
    }
}

/// The search rows rebuilt for the current query, first one selected.
pub open spec fn search_refreshed(s: AppView) -> AppView {
    match s.mode {
        ModeView::Search { query, .. } => AppView {
            rows: search_rows(s.tree_rows, query),
            cursor: 0,
            scroll: 0,
            ..s
        },
        _ => s,
    }
}

/// Go-to opened with an empty query, remembering the tree position.
pub open spec fn search_started(s: AppView) -> AppView {
    search_refreshed(
        AppView {
            mode: ModeView::Search { query: seq![], origin_cursor: s.cursor, origin_scroll: s.scroll },
            ..s
        },
    )
}

/// Go-to left: the tree rows and position come back.
pub open spec fn search_cancelled(s: AppView) -> AppView {
    match s.mode {
        ModeView::Search { origin_cursor, origin_scroll, .. } => AppView {
            mode: ModeView::Normal,
            rows: s.tree_rows,
            cursor: min_usize(origin_cursor, last_index(s.tree_rows.len())),
            scroll: origin_scroll,
            ..s
        },
        _ => AppView { mode: ModeView::Normal, ..s },
    }
}

/// Enter in go-to: leave it and open the selected match.
pub open spec fn search_result_opened(s: AppView) -> AppView {
    let t = search_cancelled(s);
    if s.cursor < s.rows.len() {
        AppView { history: t.history.push(frame_of(s.rows[s.cursor as int].issue_id)), ..t }
    } else {
        t
    }
}

/// Enter in a task view: open the selected dependency.
pub open spec fn dependency_opened(s: AppView) -> AppView {
    match selected_dependency_of(s) {
        Some(d) => AppView { history: s.history.push(frame_of(d.id)), ..s },
        None => s,
    }
}

/// What a pending `e` makes of the next key: on its timeout or a second `e`
/// the description is edited, on `t` the title; any other key cancels it.
pub open spec fn chord_action(key: KeyEvent, expired: bool) -> Option<ActionView> {
    if expired {
        Some(ActionView::Edit(EditField::Description))
    } else if is_plain(key) && key.code == KeyCode::Char('t') {
        Some(ActionView::Edit(EditField::Title))
    } else if is_plain(key) && key.code == KeyCode::Char('e') {
        Some(ActionView::Edit(EditField::Description))
    } else {
        None
    }
}

pub open spec fn selected_is_create_entry(s: AppView) -> bool {
    s.cursor < s.rows.len() && s.rows[s.cursor as int].path.len() == 0
}

pub open spec fn issue_id_of(i: Option<IssueView>) -> Option<Seq<char>> {
    match i {
        Some(i) => Some(i.id),
        None => None,
    }
}

/// A key in the tree view.
pub open spec fn tree_key(s0: AppView, key: KeyEvent, expired: bool) -> (AppView, ActionView) {
    let s = AppView { chord_pending: false, ..s0 };
    let c = key.code;
    let ctrl = key.modifiers.control;
    let v = s.viewport as int;
    if s0.chord_pending && chord_action(key, expired) is Some {
        (s, chord_action(key, expired).unwrap())
    } else if c == KeyCode::Char('/') {
        (search_started(s), ActionView::NoOp)
    } else if c == KeyCode::Char('d') && ctrl {
        (cursor_moved(s, v / 2), ActionView::NoOp)
    } else if c == KeyCode::Char('u') && ctrl {
        (cursor_moved(s, -(v / 2)), ActionView::NoOp)
    } else if c == KeyCode::Char('j') || c == KeyCode::Down {
        (cursor_moved(s, 1), ActionView::NoOp)
    } else if c == KeyCode::Char('k') || c == KeyCode::Up {
        (cursor_moved(s, -1), ActionView::NoOp)
    } else if c == KeyCode::PageDown {
        (cursor_moved(s, v), ActionView::NoOp)
    } else if c == KeyCode::PageUp {
        (cursor_moved(s, -v), ActionView::NoOp)
    } else if c == KeyCode::Char('g') || c == KeyCode::Home {
        (AppView { cursor: 0, ..s }, ActionView::NoOp)
    } else if c == KeyCode::Char('G') || c == KeyCode::End {
        (AppView { cursor: last_index(s.rows.len()), ..s }, ActionView::NoOp)
    } else if c == KeyCode::Tab {
        (toggled(s), ActionView::NoOp)
    } else if c == KeyCode::Char('l') || c == KeyCode::Right {
        (expanded_or_entered(s), ActionView::NoOp)
    } else if c == KeyCode::Char('h') || c == KeyCode::Left {
        (collapsed_or_left(s), ActionView::NoOp)
    } else if c == KeyCode::Enter {
        if selected_is_create_entry(s) {
            (add_issue_started(s, None), ActionView::NoOp)
        } else {
            (issue_opened(s), ActionView::NoOp)
        }
    } else if c == KeyCode::Char('e') && s.tree_issue() is Some {
        (AppView { chord_pending: true, ..s }, ActionView::NoOp)
    } else if c == KeyCode::Char('s') {
        (picker_started(s, PickerKind::Status), ActionView::NoOp)
    } else if c == KeyCode::Char('p') {
        (picker_started(s, PickerKind::Priority), ActionView::NoOp)
    } else if c == KeyCode::Char('x') {
        (close_confirmation_started(s), ActionView::NoOp)
    } else if c == KeyCode::Char('+') {
        (add_issue_started(s, issue_id_of(s.tree_issue())), ActionView::NoOp)
    } else if c == KeyCode::Char('q') || c == KeyCode::Esc {
        (s, ActionView::Quit)
    } else {
        (s, ActionView::NoOp)
    }
}

/// The task view on top with its dependency cursor at `c`.
pub open spec fn dependency_cursor_set(s: AppView, c: usize) -> AppView {
    if s.history.len() > 0 {
        frame_replaced(s, DetailFrameView { dependency_cursor: c, ..s.history.last() })
    } else {
        s
    }
}

/// A key in a task view.
pub open spec fn detail_key(s0: AppView, key: KeyEvent, expired: bool) -> (AppView, ActionView) {
    let s = AppView { chord_pending: false, ..s0 };
    let c = key.code;
    if s0.chord_pending && chord_action(key, expired) is Some {
        (s, chord_action(key, expired).unwrap())
    } else if c == KeyCode::Char('j') || c == KeyCode::Down {
        (dependency_cursor_moved(s, 1), ActionView::NoOp)
    } else if c == KeyCode::Char('k') || c == KeyCode::Up {
        (dependency_cursor_moved(s, -1), ActionView::NoOp)
    } else if c == KeyCode::Char('g') || c == KeyCode::Home {
        (dependency_cursor_set(s, 0), ActionView::NoOp)
    } else if c == KeyCode::Char('G') || c == KeyCode::End {
        (dependency_cursor_set(s, last_dependency(s)), ActionView::NoOp)
    } else if c == KeyCode::Enter {
        (dependency_opened(s), ActionView::NoOp)
    } else if c == KeyCode::Char('e') && s.detail_issue() is Some {
        (AppView { chord_pending: true, ..s }, ActionView::NoOp)
    } else if c == KeyCode::Char('s') {
        (picker_started(s, PickerKind::Status), ActionView::NoOp)
    } else if c == KeyCode::Char('p') {
        (picker_started(s, PickerKind::Priority), ActionView::NoOp)
    } else if c == KeyCode::Char('x') && s.can_close() {
        (close_confirmation_started(s), ActionView::NoOp)
    } else if c == KeyCode::Char('+') && s.detail_issue() is Some {
        (add_issue_started(s, issue_id_of(s.detail_issue())), ActionView::NoOp)
    } else if c == KeyCode::Backspace {
        (AppView { history: s.history.drop_last(), ..s }, ActionView::NoOp)
    } else if c == KeyCode::Esc {
        (AppView { history: seq![], ..s }, ActionView::NoOp)
    } else if c == KeyCode::Char('q') {
        (s, ActionView::Quit)
    } else {
        (s, ActionView::NoOp)
    }
}

/// A key while close confirmation is asked for `id`.
pub open spec fn confirm_close_key(s: AppView, id: Seq<char>, key: KeyEvent) -> (AppView, ActionView) {
    let c = key.code;
    if c == KeyCode::Char('y') || c == KeyCode::Char('Y') {
        (AppView { mode: ModeView::Normal, ..s }, ActionView::CloseIssue(id))
    } else if c == KeyCode::Char('n') || c == KeyCode::Char('N') || c == KeyCode::Esc {
        (AppView { mode: ModeView::Normal, ..s }, ActionView::NoOp)
    } else {
        (s, ActionView::NoOp)
    }
}

/// The search state with another query, its rows rebuilt.
pub open spec fn with_query(s: AppView, query: Seq<char>) -> AppView {
    match s.mode {
        ModeView::Search { origin_cursor, origin_scroll, .. } => search_refreshed(
            AppView { mode: ModeView::Search { query, origin_cursor, origin_scroll }, ..s },
        ),
        _ => s,
    }
}

/// A key in go-to with `query` typed so far.
pub open spec fn search_key(s: AppView, query: Seq<char>, key: KeyEvent) -> (AppView, ActionView) {
    let c = key.code;
    let ctrl = key.modifiers.control;
    let v = s.viewport as int;
    let next = if c == KeyCode::Esc {
        search_cancelled(s)
    } else if c == KeyCode::Enter {
        search_result_opened(s)
    } else if c == KeyCode::Char('d') && ctrl {
        cursor_moved(s, v / 2)
    } else if c == KeyCode::Char('u') && ctrl {
        with_query(s, seq![])
    } else if c == KeyCode::Down {
        cursor_moved(s, 1)
    } else if c == KeyCode::Up {
        cursor_moved(s, -1)
    } else if c == KeyCode::PageDown {
        cursor_moved(s, v)
    } else if c == KeyCode::PageUp {
        cursor_moved(s, -v)
    } else if c == KeyCode::Home {
        AppView { cursor: 0, ..s }
    } else if c == KeyCode::End {
        AppView { cursor: last_index(s.rows.len()), ..s }
    } else if c == KeyCode::Backspace {
        with_query(
            s,
            if query.len() > 0 {
                query.drop_last()
            } else {
                query
            },
        )
    } else if c is Char && is_plain(key) {
        with_query(s, query.push(c->Char_0))
    } else {
        s
    };
    (next, ActionView::NoOp)
}

/// A key in the add-issue flow `f`.
pub open spec fn add_issue_key(s: AppView, f: AddIssueFlowView, key: KeyEvent) -> (AppView, ActionView) {
    let c = key.code;
    let plain = is_plain(key);
    let with = |g: AddIssueFlowView| AppView { mode: ModeView::AddIssue(g), ..s };
    if f.confirming_cancel {
        if c == KeyCode::Char('y') || c == KeyCode::Char('Y') {
            (AppView { mode: ModeView::Normal, ..s }, ActionView::NoOp)
        } else if c == KeyCode::Char('n') || c == KeyCode::Char('N') || c == KeyCode::Esc {
            (with(AddIssueFlowView { confirming_cancel: false, ..f }), ActionView::NoOp)
        } else {
            (s, ActionView::NoOp)
        }
    } else if c == KeyCode::Esc {
        (with(AddIssueFlowView { confirming_cancel: true, ..f }), ActionView::NoOp)
    } else {
        match f.step {
            AddIssueStep::Title => if c == KeyCode::Enter && trim_of(f.title).len() > 0 {
                (with(AddIssueFlowView { step: AddIssueStep::Description, ..f }), ActionView::NoOp)
            } else if c == KeyCode::Backspace {
                (
                    with(
                        AddIssueFlowView {
                            title: if f.title.len() > 0 {
                                f.title.drop_last()
                            } else {
                                f.title
                            },
                            ..f
                        },
                    ),
                    ActionView::NoOp,
                )
            } else if c == KeyCode::Char('e') && plain && f.title.len() == 0 {
                (s, ActionView::EditAddIssue(AddIssueField::Title))
            } else if c is Char && plain {
                (with(AddIssueFlowView { title: f.title.push(c->Char_0), ..f }), ActionView::NoOp)
            } else {
                (s, ActionView::NoOp)
            },
            AddIssueStep::Description => if c == KeyCode::Enter {
                (with(AddIssueFlowView { step: AddIssueStep::IssueType, ..f }), ActionView::NoOp)
            } else if c == KeyCode::Backspace {
                (
                    with(
                        AddIssueFlowView {
                            description: if f.description.len() > 0 {
                                f.description.drop_last()
                            } else {
                                f.description
                            },
                            ..f
                        },
                    ),
                    ActionView::NoOp,
                )
            } else if c == KeyCode::Char('e') && plain && f.description.len() == 0 {
                (s, ActionView::EditAddIssue(AddIssueField::Description))
            } else if c is Char && plain {
                (
                    with(AddIssueFlowView { description: f.description.push(c->Char_0), ..f }),
                    ActionView::NoOp,
                )
            } else {
                (s, ActionView::NoOp)
            },
            AddIssueStep::IssueType => if c == KeyCode::Char('j') || c == KeyCode::Down {
                (
                    with(
                        AddIssueFlowView {
                            issue_type_index: min_usize((f.issue_type_index + 1) as usize, 5),
                            ..f
                        },
                    ),
                    ActionView::NoOp,
                )
            } else if c == KeyCode::Char('k') || c == KeyCode::Up {
                (
                    with(
                        AddIssueFlowView {
                            issue_type_index: last_index(f.issue_type_index as nat),
                            ..f
                        },
                    ),
                    ActionView::NoOp,
                )
            } else if c == KeyCode::Char('g') || c == KeyCode::Home {
                (with(AddIssueFlowView { issue_type_index: 0, ..f }), ActionView::NoOp)
            } else if c == KeyCode::Char('G') || c == KeyCode::End {
                (with(AddIssueFlowView { issue_type_index: 5, ..f }), ActionView::NoOp)
            } else if c == KeyCode::Enter {
                (with(AddIssueFlowView { step: AddIssueStep::Priority, ..f }), ActionView::NoOp)
            } else if c == KeyCode::Backspace {
                (with(AddIssueFlowView { step: AddIssueStep::Description, ..f }), ActionView::NoOp)
            } else {
                (s, ActionView::NoOp)
            },
            AddIssueStep::Priority => if c == KeyCode::Char('j') || c == KeyCode::Down {
                (
                    with(
                        AddIssueFlowView {
                            priority_index: min_usize((f.priority_index + 1) as usize, 4),
                            ..f
                        },
                    ),
                    ActionView::NoOp,
                )
            } else if c == KeyCode::Char('k') || c == KeyCode::Up {
                (
                    with(AddIssueFlowView { priority_index: last_index(f.priority_index as nat), ..f }),
                    ActionView::NoOp,
                )
            } else if c == KeyCode::Char('g') || c == KeyCode::Home {
                (with(AddIssueFlowView { priority_index: 0, ..f }), ActionView::NoOp)
            } else if c == KeyCode::Char('G') || c == KeyCode::End {
                (with(AddIssueFlowView { priority_index: 4, ..f }), ActionView::NoOp)
            } else if c == KeyCode::Enter {
                (s, ActionView::CreateIssue(draft_of(f)))
            } else if c == KeyCode::Backspace {
                (with(AddIssueFlowView { step: AddIssueStep::IssueType, ..f }), ActionView::NoOp)
            } else {
                (s, ActionView::NoOp)
            },
        }
    }
}

/// A key in the picker `p`.
pub open spec fn picker_key(s: AppView, p: PickerView, key: KeyEvent) -> (AppView, ActionView) {
    let c = key.code;
    let with = |index: usize| AppView { mode: ModeView::Picker(PickerView { index, ..p }), ..s };
    if c == KeyCode::Char('j') || c == KeyCode::Down {
        (with(min_usize((p.index + 1) as usize, 4)), ActionView::NoOp)
    } else if c == KeyCode::Char('k') || c == KeyCode::Up {
        (with(last_index(p.index as nat)), ActionView::NoOp)
    } else if c == KeyCode::Char('g') || c == KeyCode::Home {
        (with(0), ActionView::NoOp)
    } else if c == KeyCode::Char('G') || c == KeyCode::End {
        (with(4), ActionView::NoOp)
    } else if c == KeyCode::Esc {
        (AppView { mode: ModeView::Normal, ..s }, ActionView::NoOp)
    } else if c == KeyCode::Enter {
        (
            AppView { mode: ModeView::Normal, ..s },
            match p.kind {
                PickerKind::Status => ActionView::SetStatus(p.issue_id, STATUSES[p.index as int]@),
                PickerKind::Priority => ActionView::SetPriority(
                    p.issue_id,
                    PRIORITIES[p.index as int],
                ),
            },
        )
    } else {
        (s, ActionView::NoOp)
    }
}

/// A key taken by the open mode, or else by the visible screen.
pub open spec fn mode_step(s: AppView, key: KeyEvent, expired: bool) -> (AppView, ActionView) {
    match s.mode {
        ModeView::AddIssue(f) => add_issue_key(s, f, key),
        ModeView::ConfirmClose(id) => confirm_close_key(s, id, key),
        ModeView::Search { query, .. } => search_key(s, query, key),
        ModeView::Picker(p) => picker_key(s, p, key),
        ModeView::Normal => if s.history.len() == 0 {
            tree_key(s, key, expired)
        } else {
            detail_key(s, key, expired)
        },
    }
}

/// One key press: the status line clears; Control-C quits from anywhere;
/// otherwise the open mode, or else the visible screen, takes the key.
/// `expired` says whether a pending `e` has waited past its timeout.
pub open spec fn key_step(s0: AppView, key: KeyEvent, expired: bool) -> (AppView, ActionView) {
    let s = AppView { status: None, ..s0 };
    if key.modifiers.control && key.code == KeyCode::Char('c') {
        (AppView { mode: ModeView::Normal, chord_pending: false, ..s }, ActionView::Quit)
    } else {
        mode_step(s, key, expired)
    }
}

/// `s` without its last character, if it has one.
fn without_last_char(s: String) -> (r: String)
    ensures
        r@ == (if s@.len() > 0 { s@.drop_last() } else { s@ }),
{
    let mut s = s;
    pop_char(&mut s);
    s
}

/// `s` with `c` appended.
fn with_char(s: String, c: char) -> (r: String)
    ensures
        r@ == s@.push(c),
{
    let mut s = s;
    push_char(&mut s, c);
    s
}

/// Whether `v` holds the string `s`.
fn slice_contains(v: &[String], s: &str) -> (r: bool)
    ensures
        r == string_views(v@).contains(s@),
{
    let mut k: usize = 0;
    while k < v.len()
        invariant
            k <= v@.len(),
            forall|m: int| 0 <= m < k ==> (#[trigger] v@[m])@ != s@,
        decreases v@.len() - k,
    {
        if str_eq(v[k].as_str(), s) {
            proof {
                assert(string_views(v@)[k as int] == s@);
            }
            return true;
        }
        k = k + 1;
    }
    proof {
        if string_views(v@).contains(s@) {
            let m = choose|m: int| 0 <= m < string_views(v@).len() && string_views(v@)[m] == s@;
            assert(v@[m]@ == s@);
        }
    }
    false
}

/// The issue ids at the end of the expanded paths that left the tree of `graph`.
fn moved_issue_ids(graph: &IssueGraph, expanded: &Vec<Vec<String>>) -> (r: Vec<String>)
    ensures
        string_views(r@).to_set() == moved_ids(graph@, path_views(expanded@).to_set()),
{
    let ghost ev = path_views(expanded@);
    let mut ids: Vec<String> = Vec::new();
    let mut k: usize = 0;
    while k < expanded.len()
        invariant
            k <= expanded@.len(),
            ev == path_views(expanded@),
            forall|id: Seq<char>|
                string_views(ids@).contains(id) <==> exists|m: int|
                    0 <= m < k && !path_in_tree(graph@, #[trigger] ev[m]) && ev[m].len() > 0
                        && ev[m].last() == id,
        decreases expanded@.len() - k,
    {
        let path = &expanded[k];
        if path.len() > 0 && !App::tree_path_exists(graph, path) {
            let ghost before = string_views(ids@);
            ids.push(path[path.len() - 1].clone());
            proof {
                assert(string_views(ids@) =~= before.push(ev[k as int].last()));
                assert forall|id: Seq<char>|
                    (exists|m: int|
                        0 <= m < k + 1 && !path_in_tree(graph@, #[trigger] ev[m]) && ev[m].len()
                            > 0 && ev[m].last() == id) implies string_views(ids@).contains(id) by {
                    {
                        let m = choose|m: int|
                            0 <= m < k + 1 && !path_in_tree(graph@, #[trigger] ev[m])
                                && ev[m].len() > 0 && ev[m].last() == id;
                        if m == k {
                            assert(string_views(ids@)[before.len() as int] == id);
                        } else {
                            assert(before.contains(id));
                            let j = choose|j: int| 0 <= j < before.len() && before[j] == id;
                            assert(string_views(ids@)[j] == id);
                        }
                    }
                }
                assert forall|id: Seq<char>|
                    string_views(ids@).contains(id) implies exists|m: int|
                        0 <= m < k + 1 && !path_in_tree(graph@, #[trigger] ev[m]) && ev[m].len()
                            > 0 && ev[m].last() == id by {
                    let j = choose|j: int|
                        0 <= j < string_views(ids@).len() && string_views(ids@)[j] == id;
                    if j < before.len() {
                        assert(before[j] == id);
                        assert(before.contains(id));
                    } else {
                        assert(ev[k as int].last() == id);
                    }
                }
            }
        }
        k = k + 1;
    }
    proof {
        let es = ev.to_set();
        assert forall|id: Seq<char>|
            #[trigger] string_views(ids@).to_set().contains(id) == moved_ids(graph@, es).contains(
                id,
            ) by {
            if string_views(ids@).contains(id) {
                let m = choose|m: int|
                    0 <= m < expanded@.len() && !path_in_tree(graph@, #[trigger] ev[m])
                        && ev[m].len() > 0 && ev[m].last() == id;
                assert(es.contains(ev[m]));
            }
            if moved_ids(graph@, es).contains(id) {
                let p = choose|p: Seq<Seq<char>>|
                    #[trigger] es.contains(p) && !path_in_tree(graph@, p) && p.len() > 0
                        && p.last() == id;
                let m = choose|m: int| 0 <= m < ev.len() && ev[m] == p;
                assert(!path_in_tree(graph@, ev[m]));
            }
        }
        assert(string_views(ids@).to_set() =~= moved_ids(graph@, es));
    }
    ids
}

/// The expanded paths that still run through `graph`, in their order.
fn kept_expanded(graph: &IssueGraph, expanded: &Vec<Vec<String>>) -> (r: Vec<Vec<String>>)
    requires
        path_views(expanded@).no_duplicates(),
    ensures
        path_views(r@).no_duplicates(),
        path_views(r@).to_set() == kept_paths(graph@, path_views(expanded@).to_set()),
{
    let ghost ev = path_views(expanded@);
    let mut kept: Vec<Vec<String>> = Vec::new();
    let mut k: usize = 0;
    while k < expanded.len()
        invariant
            k <= expanded@.len(),
            ev == path_views(expanded@),
            ev.no_duplicates(),
            path_views(kept@).no_duplicates(),
            forall|p: Seq<Seq<char>>|
                path_views(kept@).contains(p) <==> exists|m: int|
                    0 <= m < k && #[trigger] ev[m] == p && path_in_tree(graph@, p),
        decreases expanded@.len() - k,
    {
        if App::tree_path_exists(graph, &expanded[k]) {
            let ghost before = path_views(kept@);
            let ghost p = ev[k as int];
            proof {
                if before.contains(p) {
                    let m = choose|m: int| 0 <= m < k && #[trigger] ev[m] == p && path_in_tree(graph@, p);
                    assert(ev[m] == ev[k as int]);
                }
                lemma_no_dup_push(before, p);
            }
            kept.push(clone_strings(&expanded[k]));
            proof {
                assert(path_views(kept@) =~= before.push(p));
                assert forall|q: Seq<Seq<char>>|
                    path_views(kept@).contains(q) <==> exists|m: int|
                        0 <= m < k + 1 && #[trigger] ev[m] == q && path_in_tree(graph@, q) by {
                    if path_views(kept@).contains(q) {
                        let j = choose|j: int| 0 <= j < path_views(kept@).len() && path_views(kept@)[j] == q;
                        if j < before.len() {
                            assert(before[j] == q);
                            assert(before.contains(q));
                        } else {
                            assert(ev[k as int] == q);
                        }
                    }
                    if exists|m: int| 0 <= m < k + 1 && #[trigger] ev[m] == q && path_in_tree(graph@, q) {
                        let m = choose|m: int| 0 <= m < k + 1 && #[trigger] ev[m] == q && path_in_tree(graph@, q);
                        if m == k {
                            assert(path_views(kept@)[before.len() as int] == q);
                        } else {
                            assert(before.contains(q));
                            let j = choose|j: int| 0 <= j < before.len() && before[j] == q;
                            assert(path_views(kept@)[j] == q);
                        }
                    }
                }
            }
        } else {
            proof {
                assert forall|q: Seq<Seq<char>>|
                    path_views(kept@).contains(q) <==> exists|m: int|
                        0 <= m < k + 1 && #[trigger] ev[m] == q && path_in_tree(graph@, q) by {
                    if exists|m: int| 0 <= m < k + 1 && #[trigger] ev[m] == q && path_in_tree(graph@, q) {
                        let m = choose|m: int| 0 <= m < k + 1 && #[trigger] ev[m] == q && path_in_tree(graph@, q);
                        assert(m != k);
                    }
                }
            }
        }
        k = k + 1;
    }
    proof {
        let es = ev.to_set();
        assert forall|q: Seq<Seq<char>>|
            #[trigger] path_views(kept@).to_set().contains(q) == kept_paths(graph@, es).contains(q) by {
            if path_views(kept@).contains(q) {
                let m = choose|m: int| 0 <= m < expanded@.len() && #[trigger] ev[m] == q && path_in_tree(graph@, q);
                assert(es.contains(q));
            }
            if kept_paths(graph@, es).contains(q) {
                let m = choose|m: int| 0 <= m < ev.len() && ev[m] == q;
                assert(ev[m] == q);
            }
        }
        assert(path_views(kept@).to_set() =~= kept_paths(graph@, es));
    }
    kept
}

/// Adds the paths of `more` that `paths` lacks.
fn add_paths(paths: &mut Vec<Vec<String>>, more: Vec<Vec<String>>)
    requires
        path_views(old(paths)@).no_duplicates(),
    ensures
        path_views(final(paths)@).no_duplicates(),
        path_views(final(paths)@).to_set() == path_views(old(paths)@).to_set().union(
            path_views(more@).to_set(),
        ),
{
    let ghost start = path_views(paths@).to_set();
    let ghost mv = path_views(more@);
    let mut k: usize = 0;
    while k < more.len()
        invariant
            k <= more@.len(),
            mv == path_views(more@),
            path_views(paths@).no_duplicates(),
            path_views(paths@).to_set() == start.union(mv.take(k as int).to_set()),
        decreases more@.len() - k,
    {
        let ghost before = path_views(paths@);
        let ghost p = mv[k as int];
        proof {
            assert(mv.take(k + 1) =~= mv.take(k as int).push(p));
            assert(mv.take(k + 1).to_set() =~= mv.take(k as int).to_set().insert(p)) by {
                mv.take(k as int).lemma_push_to_set_commute(p);
            }
        }
        if find_path(paths, &more[k]).is_none() {
            proof {
                lemma_no_dup_push(before, p);
            }
            paths.push(clone_strings(&more[k]));
            proof {
                assert(path_views(paths@) =~= before.push(p));
                assert(path_views(paths@).to_set() =~= start.union(mv.take(k + 1).to_set()));
            }
        } else {
            proof {
                assert(before.to_set().contains(p));
                assert(path_views(paths@).to_set() =~= start.union(mv.take(k + 1).to_set()));
            }
        }
        k = k + 1;
    }
    proof {
        assert(mv.take(more@.len() as int) =~= mv);
    }
}

/// The first of the rows nearest to `c` that show the issue `id`.
fn nearest_row(rows: &Vec<TreeRow>, id: &str, c: usize) -> (r: Option<usize>)
    ensures
        match r {
            Some(k) => nearest_issue_index(row_views(rows@), id@, c as int, rows@.len()) == Some(
                k as int,
            ),
            None => nearest_issue_index(row_views(rows@), id@, c as int, rows@.len()) is None,
        },
{
    let ghost rv = row_views(rows@);
    let mut best: Option<usize> = None;
    let mut best_distance: usize = 0;
    let mut k: usize = 0;
    while k < rows.len()
        invariant
            k <= rows@.len(),
            rv == row_views(rows@),
            match best {
                Some(j) => nearest_issue_index(rv, id@, c as int, k as nat) == Some(j as int)
                    && best_distance == distance(j as int, c as int),
                None => nearest_issue_index(rv, id@, c as int, k as nat) is None,
            },
        decreases rows@.len() - k,
    {
        if str_eq(rows[k].issue_id.as_str(), id) {
            let d = if k >= c {
                k - c
            } else {
                c - k
            };
            let better = match best {
                Some(_) => d < best_distance,
                None => true,
            };
            if better {
                best = Some(k);
                best_distance = d;
            }
        }
        k = k + 1;
    }
    best
}

/// The task views of `history` whose issue `graph` still holds, each with its
/// dependency cursor moved back onto the issue's dependencies.
fn kept_history(graph: &IssueGraph, history: &Vec<DetailFrame>) -> (r: Vec<DetailFrame>)
    ensures
        frame_views(r@) == kept_frames(graph@, frame_views(history@)),
{
    let ghost hv = frame_views(history@);
    let mut kept: Vec<DetailFrame> = Vec::new();
    let mut k: usize = 0;
    while k < history.len()
        invariant
            k <= history@.len(),
            hv == frame_views(history@),
            frame_views(kept@) == kept_frames(graph@, hv.take(k as int)),
        decreases history@.len() - k,
    {
        let frame = &history[k];
        let ghost before = frame_views(kept@);
        proof {
            assert(hv.take(k + 1).drop_last() =~= hv.take(k as int));
        }
        match graph.issue(frame.issue_id.as_str()) {
            Some(issue) => {
                let n = issue.dependencies.len();
                let last = if n == 0 {
                    0
                } else {
                    n - 1
                };
                let cursor = if frame.dependency_cursor <= last {
                    frame.dependency_cursor
                } else {
                    last
                };
                kept.push(
                    DetailFrame {
                        issue_id: frame.issue_id.clone(),
                        dependency_cursor: cursor,
                        scroll: frame.scroll,
                    },
                );
                proof {
                    assert(frame_views(kept@) =~= kept_frames(graph@, hv.take(k + 1)));
                }
            },
            None => {},
        }
        k = k + 1;
    }
    proof {
        assert(hv.take(history@.len() as int) =~= hv);
    }
    kept
}

/// The title the flow keeps from text written in `$EDITOR`.
fn title_from_text(text: &str) -> (r: String)
    ensures
        r@ == title_from_editor(text@),
{
    let lines = split_lines(text);
    let ghost lv = lines_of(text@);
    let mut r = String::new();
    let mut kept: usize = 0;
    let mut i: usize = 0;
    proof {
        assert(lv.take(0) =~= seq![]);
    }
    while i < lines.len()
        invariant
            string_views(lines@) == lv,
            i <= lv.len(),
            kept <= i,
            kept == kept_lines(lv.take(i as int)).len(),
            r@ == joined(kept_lines(lv.take(i as int)), " "@),
        decreases lv.len() - i,
    {
        let t = trim(lines[i].as_str());
        proof {
            assert(lv.take(i + 1).drop_last() =~= lv.take(i as int));
            assert(lv.take(i + 1).last() == lv[i as int]);
            assert(lines@[i as int]@ == lv[i as int]);
        }
        if !t.as_str().is_empty() {
            let ghost k0 = kept_lines(lv.take(i as int));
            if kept > 0 {
                push_text(&mut r, " ");
            }
            push_text(&mut r, t.as_str());
            kept = kept + 1;
            proof {
                let k1 = kept_lines(lv.take(i + 1));
                assert(k1 == k0.push(t@));
                assert(k1.drop_last() =~= k0);
                if k0.len() == 0 {
                    assert(r@ =~= joined(k1, " "@));
                } else {
                    assert(r@ =~= joined(k1, " "@));
                }
            }
        }
        i = i + 1;
    }
    proof {
        assert(lv.take(lv.len() as int) =~= lv);
    }
    r
}


proof fn lemma_no_dup_remove(s: Seq<Seq<Seq<char>>>, k: int)
    requires
        s.no_duplicates(),
        0 <= k < s.len(),
    ensures
        s.remove(k).no_duplicates(),
        s.remove(k).to_set() == s.to_set().remove(s[k]),
{
    let t = s.remove(k);
    assert forall|x: Seq<Seq<char>>| #[trigger] t.to_set().contains(x) == s.to_set().remove(
        s[k],
    ).contains(x) by {
        if t.contains(x) {
            let m = choose|m: int| 0 <= m < t.len() && t[m] == x;
            if m < k {
                assert(s[m] == x);
            } else {
                assert(s[m + 1] == x);
            }
        }
        if s.contains(x) && x != s[k] {
            let m = choose|m: int| 0 <= m < s.len() && s[m] == x;
            if m < k {
                assert(t[m] == x);
            } else {
                assert(t[m - 1] == x);
            }
        }
    }
    assert(t.to_set() =~= s.to_set().remove(s[k]));
}

proof fn lemma_no_dup_push(s: Seq<Seq<Seq<char>>>, x: Seq<Seq<char>>)
    requires
        s.no_duplicates(),
        !s.contains(x),
    ensures
        s.push(x).no_duplicates(),
        s.push(x).to_set() == s.to_set().insert(x),
{
    let t = s.push(x);
    assert forall|y: Seq<Seq<char>>| #[trigger] t.to_set().contains(y) == s.to_set().insert(
        x,
    ).contains(y) by {
        if t.contains(y) && y != x {
            let m = choose|m: int| 0 <= m < t.len() && t[m] == y;
            assert(s[m] == y);
        }
        if s.contains(y) {
            let m = choose|m: int| 0 <= m < s.len() && s[m] == y;
            assert(t[m] == y);
        }
        assert(t[s.len() as int] == x);
    }
    assert(t.to_set() =~= s.to_set().insert(x));
}

/// Whether `path` begins with `prefix`.
fn path_starts_with(path: &Vec<String>, prefix: &Vec<String>) -> (r: bool)
    ensures
        r == string_views(prefix@).is_prefix_of(string_views(path@)),
{
    if prefix.len() > path.len() {
        return false;
    }
    let mut i: usize = 0;
    while i < prefix.len()
        invariant
            prefix@.len() <= path@.len(),
            i <= prefix@.len(),
            forall|m: int| 0 <= m < i ==> (#[trigger] prefix@[m])@ == path@[m]@,
        decreases prefix@.len() - i,
    {
        if prefix[i] != path[i] {
            proof {
                assert(string_views(path@).subrange(0, prefix@.len() as int)[i as int]
                    != string_views(prefix@)[i as int]);
            }
            return false;
        }
        i = i + 1;
    }
    proof {
        assert(string_views(prefix@) =~= string_views(path@).subrange(0, prefix@.len() as int));
    }
    true
}

/// The rows go-to shows for `query`.
fn filter_search_rows(rows: &Vec<TreeRow>, query: &str) -> (r: Vec<TreeRow>)
    ensures
        row_views(r@) == search_rows(row_views(rows@), query@),
{
    let ghost rv = row_views(rows@);
    let mut r: Vec<TreeRow> = Vec::new();
    let mut i: usize = 0;
    proof {
        assert(rv.take(0) =~= seq![]);
    }
    while i < rows.len()
        invariant
            rv == row_views(rows@),
            i <= rv.len(),
            row_views(r@) == search_rows(rv.take(i as int), query@),
        decreases rv.len() - i,
    {
        proof {
            assert(rv.take(i + 1).drop_last() =~= rv.take(i as int));
            assert(rv.take(i + 1).last() == rv[i as int]);
        }
        if !rows[i].is_create_entry() && fuzzy_match(rows[i].issue_id.as_str(), query) {
            let ghost before = row_views(r@);
            let row = rows[i].duplicate();
            r.push(row);
            proof {
                assert(row_views(r@) =~= before.push(row@));
            }
        }
        i = i + 1;
    }
    proof {
        assert(rv.take(rv.len() as int) =~= rv);
    }
    r
}

impl App {
    /// The internal invariant: the view is well formed and no expanded path
    /// is stored twice.
    pub closed spec fn inv(&self) -> bool {
        &&& self@.wf()
        &&& path_views(self.expanded@).no_duplicates()
    }

    /// A well-kept explorer is well formed in its view: among the rest, the
    /// cursor is on a row and the create entry heads the tree.
    pub proof fn lemma_inv_wf(&self)
        requires
            self.inv(),
        ensures
            self@.wf(),
    {
    }

    /// The view of the explorer holds its public fields as they are.
    pub(crate) proof fn lemma_view_fields(&self)
        ensures
            self@.graph == self.graph@,
            self@.rows == row_views(self.rows@),
            self@.cursor == self.cursor,
            self@.scroll == self.scroll,
            self@.viewport == self.viewport,
    {
    }

    /// Puts the cursor on the row at `cursor`.
    pub fn set_cursor(&mut self, cursor: usize)
        requires
            old(self).inv(),
            cursor <= last_index(old(self)@.rows.len()),
        ensures
            final(self).inv(),
            final(self)@ == (AppView { cursor, ..old(self)@ }),
    {
        self.cursor = cursor;
    }

    /// Makes the row at `scroll` the first one shown.
    pub fn set_scroll(&mut self, scroll: usize)
        requires
            old(self).inv(),
        ensures
            final(self).inv(),
            final(self)@ == (AppView { scroll, ..old(self)@ }),
    {
        self.scroll = scroll;
    }

    /// Fits the tree view to a list `list_height` rows high: the viewport
    /// becomes that height (at least one row), and the scroll moves the least
    /// that keeps the view within the rows and the cursor in view.
    pub fn fit_tree_view(&mut self, list_height: usize)
        requires
            old(self).inv(),
        ensures
            final(self).inv(),
            final(self)@ == (AppView {
                viewport: if list_height >= 1 {
                    list_height
                } else {
                    1
                },
                scroll: if old(self)@.rows.len() > 0 && list_height > 0 {
                    tree_scroll_of(
                        old(self)@.rows.len(),
                        old(self)@.cursor as nat,
                        old(self)@.scroll as nat,
                        list_height as nat,
                    ) as usize
                } else {
                    old(self)@.scroll
                },
                ..old(self)@
            }),
    {
        self.viewport = if list_height >= 1 {
            list_height
        } else {
            1
        };
        let n = self.rows.len();
        if n > 0 && list_height > 0 {
            if list_height > n || self.scroll > n - list_height {
                self.scroll = if n >= list_height {
                    n - list_height
                } else {
                    0
                };
            }
            if self.cursor < self.scroll {
                self.scroll = self.cursor;
            }
            if self.cursor - self.scroll >= list_height {
                self.scroll = self.cursor - (list_height - 1);
            }
        }
    }

    pub fn new(graph: IssueGraph) -> (app: App)
        ensures
            app.inv(),
            app@ == initial_state(graph@),
    {
        graph.shape();
        let expanded: Vec<Vec<String>> = Vec::new();
        let (rows, _) = build_tree_rows(&graph, &expanded, None);
        assert(row_views(rows@).len() == rows@.len());
        let tree_rows = clone_rows(&rows);
        let last = rows.len() - 1;
        let cursor = if 1 <= last {
            1
        } else {
            last
        };
        let app = App {
            graph,
            rows,
            cursor,
            scroll: 0,
            viewport: 1,
            mode: Mode::Normal,
            tree_rows,
            expanded,
            history: Vec::new(),
            edit_key_started: None,
            status_message: None,
        };
        proof {
            assert(path_views(app.expanded@) =~= seq![]);
            assert(path_views(app.expanded@).to_set() =~= Set::empty());
            assert(frame_views(app.history@) =~= seq![]);
        }
        app
    }

    pub fn screen(&self) -> (r: Screen)
        ensures
            r == self@.screen(),
    {
        if self.history.len() == 0 {
            Screen::Tree
        } else {
            Screen::Detail
        }
    }

    pub fn current_tree_issue(&self) -> (r: Option<&Issue>)
        ensures
            issue_ref_view(r) == self@.tree_issue(),
    {
        if self.cursor < self.rows.len() {
            self.graph.issue(self.rows[self.cursor].issue_id.as_str())
        } else {
            None
        }
    }

    pub fn search_query(&self) -> (r: Option<&str>)
        ensures
            match r {
                Some(q) => self@.mode matches ModeView::Search { query, .. } && q@ == query,
                None => self@.mode !is Search,
            },
    {
        match &self.mode {
            Mode::Search { query, .. } => Some(query.as_str()),
            _ => None,
        }
    }

    pub fn current_detail_issue(&self) -> (r: Option<&Issue>)
        ensures
            issue_ref_view(r) == self@.detail_issue(),
    {
        let n = self.history.len();
        if n == 0 {
            None
        } else {
            self.graph.issue(self.history[n - 1].issue_id.as_str())
        }
    }

    /// The issue the edit, status, priority and close keys act on: the
    /// selected tree row, or the issue of the task view when one is open.
    pub fn current_issue(&self) -> (r: Option<&Issue>)
        ensures
            issue_ref_view(r) == self@.current_issue(),
    {
        match self.screen() {
            Screen::Tree => self.current_tree_issue(),
            Screen::Detail => self.current_detail_issue(),
        }
    }

    pub fn detail_frame(&self) -> (r: Option<&DetailFrame>)
        ensures
            match r {
                Some(f) => self@.history.len() > 0 && f@ == self@.history.last(),
                None => self@.history.len() == 0,
            },
    {
        let n = self.history.len();
        if n == 0 {
            None
        } else {
            Some(&self.history[n - 1])
        }
    }

    pub fn detail_frame_mut(&mut self) -> (r: Option<&mut DetailFrame>)
        ensures
            old(self).inv() ==> final(self).inv(),
            old(self)@.history.len() == 0 ==> r is None && final(self)@ == old(self)@,
            old(self)@.history.len() > 0 ==> (r matches Some(f) && (*f)@ == old(
                self,
            )@.history.last() && final(self)@ == frame_replaced(old(self)@, (*final(f))@)),
    {
        let n = self.history.len();
        if n == 0 {
            None
        } else {
            proof {
                lemma_frame_views_update();
            }
            Some(&mut self.history[n - 1])
        }
    }

    pub fn is_confirming_close(&self) -> (r: bool)
        ensures
            r == self@.mode is ConfirmClose,
    {
        match &self.mode {
            Mode::ConfirmClose(_) => true,
            _ => false,
        }
    }

    pub fn closing_issue_id(&self) -> (r: Option<&str>)
        ensures
            match r {
                Some(id) => self@.mode == ModeView::ConfirmClose(id@),
                None => self@.mode !is ConfirmClose,
            },
    {
        match &self.mode {
            Mode::ConfirmClose(issue_id) => Some(issue_id.as_str()),
            _ => None,
        }
    }

    pub fn add_issue_flow(&self) -> (r: Option<&AddIssueFlow>)
        ensures
            match r {
                Some(f) => self@.mode == ModeView::AddIssue(f@),
                None => self@.mode !is AddIssue,
            },
    {
        match &self.mode {
            Mode::AddIssue(flow) => Some(flow),
            _ => None,
        }
    }

    pub fn picker(&self) -> (r: Option<&Picker>)
        ensures
            match r {
                Some(p) => self@.mode == ModeView::Picker(p@),
                None => self@.mode !is Picker,
            },
    {
        match &self.mode {
            Mode::Picker(picker) => Some(picker),
            _ => None,
        }
    }

    /// Stores text written in `$EDITOR` for the open add-issue flow: a title
    /// keeps its non-blank lines, trimmed and joined by spaces; a description
    /// loses its trailing whitespace. Without an open flow nothing changes.
    pub fn set_add_issue_field(&mut self, field: AddIssueField, value: String)
        requires
            old(self).inv(),
        ensures
            final(self).inv(),
            final(self)@ == with_field_text(old(self)@, field, value@),
    {
        let mut mode = Mode::Normal;
        std::mem::swap(&mut mode, &mut self.mode);
        match mode {
            Mode::AddIssue(mut flow) => {
                match field {
                    AddIssueField::Title => {
                        flow.title = title_from_text(value.as_str());
                    },
                    AddIssueField::Description => {
                        flow.description = trim_end(value.as_str());
                    },
                }
                self.mode = Mode::AddIssue(flow);
            },
            other => {
                self.mode = other;
            },
        }
    }

    pub fn add_issue_field(&self, field: AddIssueField) -> (r: Option<&str>)
        ensures
            match r {
                Some(text) => self@.mode matches ModeView::AddIssue(f) && text@ == match field {
                    AddIssueField::Title => f.title,
                    AddIssueField::Description => f.description,
                },
                None => self@.mode !is AddIssue,
            },
    {
        match &self.mode {
            Mode::AddIssue(flow) => Some(
                match field {
                    AddIssueField::Title => flow.title.as_str(),
                    AddIssueField::Description => flow.description.as_str(),
                },
            ),
            _ => None,
        }
    }

    /// Ends the add-issue flow. Not for use during search: the filtered rows
    /// would stay in place of the tree.
    /// Closes the add-issue flow. Called in go-to, it ends go-to too and
    /// leaves its matches as the rows, so the full invariant is owed only
    /// outside go-to; a refresh can follow either way.
    pub fn finish_add_issue(&mut self)
        requires
            old(self).inv(),
        ensures
            old(self)@.mode !is Search ==> final(self).inv(),
            final(self).refreshable(),
            final(self)@ == (AppView { mode: ModeView::Normal, ..old(self)@ }),
    {
        self.mode = Mode::Normal;
    }

    pub fn status_message(&self) -> (r: Option<&str>)
        ensures
            match r {
                Some(m) => self@.status == Some(m@),
                None => self@.status is None,
            },
    {
        match &self.status_message {
            Some(m) => Some(m.as_str()),
            None => None,
        }
    }

    pub fn set_status(&mut self, message: String)
        ensures
            old(self).inv() ==> final(self).inv(),
            final(self)@ == (AppView { status: Some(message@), ..old(self)@ }),
    {
        self.status_message = Some(message);
    }

    pub fn clear_status(&mut self)
        ensures
            old(self).inv() ==> final(self).inv(),
            final(self)@ == (AppView { status: None, ..old(self)@ }),
    {
        self.status_message = None;
    }

    /// Only a listed issue open in the task view can be closed (a context
    /// issue is closed already).
    pub fn can_close_current_issue(&self) -> (r: bool)
        ensures
            r == self@.can_close(),
    {
        match self.current_detail_issue() {
            Some(issue) => self.graph.is_listed(issue.id.as_str()),
            None => false,
        }
    }

    pub fn row_is_expanded(&self, row: &TreeRow) -> (r: bool)
        ensures
            r == self@.expanded.contains(row@.path),
    {
        find_path(&self.expanded, &row.path).is_some()
    }

    pub fn row_has_children(&self, row: &TreeRow) -> (r: bool)
        ensures
            r == (!row@.cycle && self@.graph.children_of(row@.issue_id).len() > 0),
    {
        !row.cycle && self.graph.tree_children(row.issue_id.as_str()).len() > 0
    }

    /// How long a pending `e` still waits for its second key, when one is
    /// pending.
    /// The time the clock reads enters only through the elapsed time, so the
    /// contract says what holds for every reading: what is left of the half
    /// second after some elapsed time, never more than the half second.
    pub fn pending_key_timeout(&self) -> (r: Option<Duration>)
        ensures
            r is Some == self@.chord_pending,
            r matches Some(d) ==> duration_nanos(d) <= 500_000_000,
            r matches Some(d) ==> exists|elapsed: u128|
                duration_nanos(d) == chord_time_left(elapsed as int),
    {
        match &self.edit_key_started {
            Some(started) => {
                let elapsed = nanos_of(&elapsed_since(started));
                let left = nanos_left(elapsed);
                let d = duration_from_nanos(left);
                assert(duration_nanos(d) == chord_time_left(elapsed as int));
                Some(d)
            },
            None => None,
        }
    }

    /// Ends a pending `e` on its timeout: on its own, `e` edits the
    /// description.
    pub fn flush_pending_key(&mut self) -> (r: Action)
        requires
            old(self).inv(),
        ensures
            final(self).inv(),
            final(self)@ == (AppView { chord_pending: false, ..old(self)@ }),
            r@ == (if old(self)@.chord_pending {
                ActionView::Edit(EditField::Description)
            } else {
                ActionView::NoOp
            }),
    {
        if self.edit_key_started.is_some() {
            self.edit_key_started = None;
            Action::Edit(EditField::Description)
        } else {
            Action::NoOp
        }
    }

    /// Leaves every task view and mode. Not for use during search: the
    /// filtered rows would stay in place of the tree.
    /// Closes every task view and any open mode. Called in go-to, it leaves the
    /// matches as the rows, so the full invariant is owed only outside go-to;
    /// a refresh can follow either way.
    pub fn return_to_tree(&mut self)
        requires
            old(self).inv(),
        ensures
            old(self)@.mode !is Search ==> final(self).inv(),
            final(self).refreshable(),
            final(self)@ == (AppView {
                history: seq![],
                mode: ModeView::Normal,
                chord_pending: false,
                ..old(self)@
            }),
    {
        self.history = Vec::new();
        self.mode = Mode::Normal;
        self.edit_key_started = None;
        proof {
            assert(frame_views(self.history@) =~= seq![]);
        }
    }

    pub fn selected_dependency(&self) -> (r: Option<&Dependency>)
        ensures
            match r {
                Some(d) => selected_dependency_of(self@) == Some(d@),
                None => selected_dependency_of(self@) is None,
            },
    {
        let n = self.history.len();
        if n == 0 {
            return None;
        }
        let frame = &self.history[n - 1];
        match self.graph.issue(frame.issue_id.as_str()) {
            Some(issue) => {
                if frame.dependency_cursor < issue.dependencies.len() {
                    Some(&issue.dependencies[frame.dependency_cursor])
                } else {
                    None
                }
            },
            None => None,
        }
    }


    fn expanded_remove(&mut self, path: &Vec<String>) -> (r: bool)
        requires
            old(self).inv(),
        ensures
            final(self).inv(),
            r == old(self)@.expanded.contains(string_views(path@)),
            final(self)@ == (AppView {
                expanded: old(self)@.expanded.remove(string_views(path@)),
                ..old(self)@
            }),
            !r ==> final(self)@ == old(self)@,
    {
        let ghost ev = path_views(self.expanded@);
        match find_path(&self.expanded, path) {
            Some(k) => {
                self.expanded.remove(k);
                proof {
                    lemma_no_dup_remove(ev, k as int);
                    assert(path_views(self.expanded@) =~= ev.remove(k as int));
                    assert(ev.to_set().contains(string_views(path@)));
                }
                true
            },
            None => {
                proof {
                    assert(ev.to_set().remove(string_views(path@)) =~= ev.to_set());
                }
                false
            },
        }
    }

    fn expanded_insert(&mut self, path: Vec<String>) -> (r: bool)
        requires
            old(self).inv(),
        ensures
            final(self).inv(),
            r == !old(self)@.expanded.contains(string_views(path@)),
            final(self)@ == (AppView {
                expanded: old(self)@.expanded.insert(string_views(path@)),
                ..old(self)@
            }),
            !r ==> final(self)@ == old(self)@,
    {
        let ghost ev = path_views(self.expanded@);
        let ghost p = string_views(path@);
        match find_path(&self.expanded, &path) {
            Some(_) => {
                proof {
                    assert(ev.to_set().insert(p) =~= ev.to_set());
                }
                false
            },
            None => {
                self.expanded.push(path);
                proof {
                    lemma_no_dup_push(ev, p);
                    assert(path_views(self.expanded@) =~= ev.push(p));
                }
                true
            },
        }
    }

    fn move_cursor(&mut self, delta: i128)
        requires
            old(self).inv(),
            -0x1_0000_0000_0000_0000 < delta < 0x1_0000_0000_0000_0000,
        ensures
            final(self).inv(),
            final(self)@ == cursor_moved(old(self)@, delta as int),
    {
        let last: i128 = if self.rows.len() == 0 {
            0
        } else {
            (self.rows.len() - 1) as i128
        };
        let target: i128 = self.cursor as i128 + delta;
        self.cursor = if target < 0 {
            0
        } else if target > last {
            last as usize
        } else {
            target as usize
        };
    }

    fn move_dependency_cursor(&mut self, delta: i128)
        requires
            old(self).inv(),
            -0x1_0000_0000_0000_0000 < delta < 0x1_0000_0000_0000_0000,
        ensures
            final(self).inv(),
            final(self)@ == dependency_cursor_moved(old(self)@, delta as int),
    {
        let last: usize = match self.current_detail_issue() {
            Some(issue) => if issue.dependencies.len() == 0 {
                0
            } else {
                issue.dependencies.len() - 1
            },
            None => 0,
        };
        let n = self.history.len();
        if n > 0 {
            let mut frame = self.history.pop().unwrap();
            let target: i128 = frame.dependency_cursor as i128 + delta;
            frame.dependency_cursor = if target < 0 {
                0
            } else if target > last as i128 {
                last
            } else {
                target as usize
            };
            let ghost popped = self.history@;
            self.history.push(frame);
            proof {
                assert(frame_views(self.history@) =~= frame_views(old(self).history@).update(
                    n - 1,
                    frame@,
                ));
            }
        }
    }

    fn open_selected_issue(&mut self)
        requires
            old(self).inv(),
        ensures
            final(self).inv(),
            final(self)@ == issue_opened(old(self)@),
    {
        if self.cursor < self.rows.len() {
            if self.rows[self.cursor].is_create_entry() {
                return;
            }
            let frame = DetailFrame {
                issue_id: self.rows[self.cursor].issue_id.clone(),
                dependency_cursor: 0,
                scroll: 0,
            };
            self.history.push(frame);
            proof {
                assert(frame_views(self.history@) =~= frame_views(old(self).history@).push(frame@));
            }
        }
    }

    fn start_close_confirmation(&mut self)
        requires
            old(self).inv(),
            old(self)@.mode !is Search,
        ensures
            final(self).inv(),
            final(self)@ == close_confirmation_started(old(self)@),
    {
        let issue_id = match self.current_issue() {
            Some(issue) => if self.graph.is_listed(issue.id.as_str()) {
                Some(issue.id.clone())
            } else {
                None
            },
            None => None,
        };
        if let Some(issue_id) = issue_id {
            self.mode = Mode::ConfirmClose(issue_id);
        }
    }

    fn start_add_issue(&mut self, parent_id: Option<String>)
        requires
            old(self).inv(),
            old(self)@.mode !is Search,
        ensures
            final(self).inv(),
            final(self)@ == add_issue_started(old(self)@, opt_text(parent_id)),
    {
        self.edit_key_started = None;
        self.mode = Mode::AddIssue(
            AddIssueFlow {
                parent_id,
                title: String::new(),
                description: String::new(),
                step: AddIssueStep::Title,
                issue_type_index: 0,
                priority_index: 1,
                confirming_cancel: false,
            },
        );
    }

    fn start_picker(&mut self, kind: PickerKind)
        requires
            old(self).inv(),
            old(self)@.mode !is Search,
        ensures
            final(self).inv(),
            final(self)@ == picker_started(old(self)@, kind),
    {
        let (issue_id, index) = match self.current_issue() {
            None => {
                return;
            },
            Some(issue) => {
                let index = match kind {
                    PickerKind::Status => {
                        let mut k: usize = 0;
                        while k < 5 && !str_eq(STATUSES[k], issue.status.as_str())
                            invariant
                                k <= 5,
                                forall|m: int| 0 <= m < k ==> STATUSES[m]@ != issue.status@,
                            decreases 5 - k,
                        {
                            k = k + 1;
                        }
                        if k < 5 {
                            k
                        } else {
                            0
                        }
                    },
                    PickerKind::Priority => {
                        let mut k: usize = 0;
                        while k < 5 && PRIORITIES[k] != issue.priority
                            invariant
                                k <= 5,
                                forall|m: int| 0 <= m < k ==> PRIORITIES[m] != issue.priority,
                            decreases 5 - k,
                        {
                            k = k + 1;
                        }
                        if k < 5 {
                            k
                        } else {
                            1
                        }
                    },
                };
                (issue.id.clone(), index)
            },
        };
        self.edit_key_started = None;
        self.mode = Mode::Picker(Picker { kind, issue_id, index });
    }

    fn toggle(&mut self)
        requires
            old(self).inv(),
            old(self)@.mode !is Search,
        ensures
            final(self).inv(),
            final(self)@ == toggled(old(self)@),
    {
        if self.cursor >= self.rows.len() {
            return;
        }
        let row = self.rows[self.cursor].duplicate();
        if !self.row_has_children(&row) {
            return;
        }
        if !self.expanded_remove(&row.path) {
            self.expanded_insert(row.path);
        }
        self.rebuild_rows();
    }

    fn expand_or_enter(&mut self)
        requires
            old(self).inv(),
            old(self)@.mode !is Search,
        ensures
            final(self).inv(),
            final(self)@ == expanded_or_entered(old(self)@),
    {
        if self.cursor >= self.rows.len() {
            return;
        }
        let row = self.rows[self.cursor].duplicate();
        if !self.row_has_children(&row) {
            return;
        }
        let path = clone_strings(&row.path);
        if self.expanded_insert(path) {
            self.rebuild_rows();
        } else if self.cursor + 1 < self.rows.len() && path_starts_with(
            &self.rows[self.cursor + 1].path,
            &row.path,
        ) {
            self.cursor = self.cursor + 1;
        }
    }

    fn collapse_or_parent(&mut self)
        requires
            old(self).inv(),
            old(self)@.mode !is Search,
        ensures
            final(self).inv(),
            final(self)@ == collapsed_or_left(old(self)@),
    {
        if self.cursor >= self.rows.len() {
            return;
        }
        let row = self.rows[self.cursor].duplicate();
        if self.expanded_remove(&row.path) {
            self.rebuild_rows();
            return;
        }
        if row.path.len() <= 1 {
            return;
        }
        let mut parent = clone_strings(&row.path);
        parent.pop();
        proof {
            assert(string_views(parent@) =~= row@.path.drop_last());
        }
        proof {
            lemma_first_path_index(row_views(self.rows@), string_views(parent@));
        }
        if let Some(position) = find_row_path(&self.rows, &parent) {
            self.cursor = position;
        }
    }

    fn rebuild_search_rows(&mut self)
        requires
            old(self)@.wf_apart_from_matches(),
            path_views(old(self).expanded@).no_duplicates(),
        ensures
            final(self).inv(),
            final(self)@ == search_refreshed(old(self)@),
    {
        let rows = match &self.mode {
            Mode::Search { query, .. } => filter_search_rows(&self.tree_rows, query.as_str()),
            _ => {
                return;
            },
        };
        self.rows = rows;
        self.cursor = 0;
        self.scroll = 0;
    }

    fn start_search(&mut self)
        requires
            old(self).inv(),
        ensures
            final(self).inv(),
            final(self)@ == search_started(old(self)@),
    {
        self.mode = Mode::Search { query: String::new(), origin_cursor: self.cursor, origin_scroll: self.scroll };
        self.rebuild_search_rows();
    }

    fn cancel_search(&mut self)
        requires
            old(self).inv(),
        ensures
            final(self).inv(),
            final(self)@ == search_cancelled(old(self)@),
    {
        let mut mode = Mode::Normal;
        std::mem::swap(&mut mode, &mut self.mode);
        if let Mode::Search { origin_cursor, origin_scroll, .. } = mode {
            self.rows = clone_rows(&self.tree_rows);
            let last = self.rows.len() - 1;
            self.cursor = if origin_cursor <= last {
                origin_cursor
            } else {
                last
            };
            self.scroll = origin_scroll;
        }
    }

    fn open_search_result(&mut self)
        requires
            old(self).inv(),
        ensures
            final(self).inv(),
            final(self)@ == search_result_opened(old(self)@),
    {
        let issue_id = if self.cursor < self.rows.len() {
            Some(self.rows[self.cursor].issue_id.clone())
        } else {
            None
        };
        self.cancel_search();
        if let Some(issue_id) = issue_id {
            let frame = DetailFrame { issue_id, dependency_cursor: 0, scroll: 0 };
            let ghost before = frame_views(self.history@);
            self.history.push(frame);
            proof {
                assert(frame_views(self.history@) =~= before.push(frame@));
            }
        }
    }

    fn open_selected_dependency(&mut self)
        requires
            old(self).inv(),
        ensures
            final(self).inv(),
            final(self)@ == dependency_opened(old(self)@),
    {
        let id = match self.selected_dependency() {
            Some(dependency) => Some(dependency.id.clone()),
            None => None,
        };
        if let Some(issue_id) = id {
            let frame = DetailFrame { issue_id, dependency_cursor: 0, scroll: 0 };
            self.history.push(frame);
            proof {
                assert(frame_views(self.history@) =~= frame_views(old(self).history@).push(frame@));
            }
        }
    }


    /// Resolves a pending `e`: `et` edits the title, `ee` (or the timeout)
    /// the description; any other key cancels the chord and is handled as
    /// usual by the caller.
    fn resolve_edit_chord(&mut self, key: &KeyEvent, expired: bool) -> (r: Option<Action>)
        requires
            old(self).inv(),
        ensures
            final(self).inv(),
            final(self)@ == (AppView { chord_pending: false, ..old(self)@ }),
            match r {
                Some(a) => old(self)@.chord_pending && chord_action(*key, expired) == Some(a@),
                None => !(old(self)@.chord_pending && chord_action(*key, expired) is Some),
            },
    {
        if self.edit_key_started.is_none() {
            return None;
        }
        self.edit_key_started = None;
        if expired {
            return Some(Action::Edit(EditField::Description));
        }
        let plain = !key.modifiers.control && !key.modifiers.alt;
        match key.code {
            KeyCode::Char('t') if plain => Some(Action::Edit(EditField::Title)),
            KeyCode::Char('e') if plain => Some(Action::Edit(EditField::Description)),
            _ => None,
        }
    }

    fn selected_row_is_create_entry(&self) -> (r: bool)
        ensures
            r == selected_is_create_entry(self@),
    {
        self.cursor < self.rows.len() && self.rows[self.cursor].is_create_entry()
    }

    #[verifier::spinoff_prover]
    #[verifier::rlimit(30)]
    fn handle_tree_key(&mut self, key: KeyEvent, expired: bool) -> (r: Action)
        requires
            old(self).inv(),
            old(self)@.mode is Normal,
            old(self)@.history.len() == 0,
        ensures
            final(self).inv(),
            (final(self)@, r@) == tree_key(old(self)@, key, expired),
    {
        if let Some(action) = self.resolve_edit_chord(&key, expired) {
            return action;
        }
        if let KeyCode::Char('/') = key.code {
            self.start_search();
            return Action::NoOp;
        }
        let ctrl = key.modifiers.control;
        let v = self.viewport as i128;
        match key.code {
            KeyCode::Char('d') if ctrl => self.move_cursor(v / 2),
            KeyCode::Char('u') if ctrl => self.move_cursor(-(v / 2)),
            KeyCode::Char('j') | KeyCode::Down => self.move_cursor(1),
            KeyCode::Char('k') | KeyCode::Up => self.move_cursor(-1),
            KeyCode::PageDown => self.move_cursor(v),
            KeyCode::PageUp => self.move_cursor(-v),
            KeyCode::Char('g') | KeyCode::Home => self.cursor = 0,
            KeyCode::Char('G') | KeyCode::End => self.cursor = self.rows.len() - 1,
            KeyCode::Tab => self.toggle(),
            KeyCode::Char('l') | KeyCode::Right => self.expand_or_enter(),
            KeyCode::Char('h') | KeyCode::Left => self.collapse_or_parent(),
            KeyCode::Enter => {
                if self.selected_row_is_create_entry() {
                    self.start_add_issue(None);
                } else {
                    self.open_selected_issue();
                }
            },
            KeyCode::Char('e') if self.current_tree_issue().is_some() => {
                self.edit_key_started = Some(now());
            },
            KeyCode::Char('s') => self.start_picker(PickerKind::Status),
            KeyCode::Char('p') => self.start_picker(PickerKind::Priority),
            KeyCode::Char('x') => self.start_close_confirmation(),
            KeyCode::Char('+') => {
                let parent_id = match self.current_tree_issue() {
                    Some(issue) => Some(issue.id.clone()),
                    None => None,
                };
                self.start_add_issue(parent_id);
            },
            KeyCode::Char('q') | KeyCode::Esc => {
                return Action::Quit;
            },
            _ => {},
        }
        Action::NoOp
    }

    fn set_dependency_cursor(&mut self, c: usize)
        requires
            old(self).inv(),
        ensures
            final(self).inv(),
            final(self)@ == dependency_cursor_set(old(self)@, c),
    {
        let n = self.history.len();
        if n > 0 {
            let mut frame = self.history.pop().unwrap();
            frame.dependency_cursor = c;
            self.history.push(frame);
            proof {
                assert(frame_views(self.history@) =~= frame_views(old(self).history@).update(
                    n - 1,
                    frame@,
                ));
            }
        }
    }

    fn handle_detail_key(&mut self, key: KeyEvent, expired: bool) -> (r: Action)
        requires
            old(self).inv(),
            old(self)@.mode is Normal,
            old(self)@.history.len() > 0,
        ensures
            final(self).inv(),
            (final(self)@, r@) == detail_key(old(self)@, key, expired),
    {
        if let Some(action) = self.resolve_edit_chord(&key, expired) {
            return action;
        }
        match key.code {
            KeyCode::Char('j') | KeyCode::Down => self.move_dependency_cursor(1),
            KeyCode::Char('k') | KeyCode::Up => self.move_dependency_cursor(-1),
            KeyCode::Char('g') | KeyCode::Home => self.set_dependency_cursor(0),
            KeyCode::Char('G') | KeyCode::End => {
                let last = match self.current_detail_issue() {
                    Some(issue) => if issue.dependencies.len() == 0 {
                        0
                    } else {
                        issue.dependencies.len() - 1
                    },
                    None => 0,
                };
                self.set_dependency_cursor(last);
            },
            KeyCode::Enter => self.open_selected_dependency(),
            KeyCode::Char('e') if self.current_detail_issue().is_some() => {
                self.edit_key_started = Some(now());
            },
            KeyCode::Char('s') => self.start_picker(PickerKind::Status),
            KeyCode::Char('p') => self.start_picker(PickerKind::Priority),
            KeyCode::Char('x') if self.can_close_current_issue() => {
                self.start_close_confirmation();
            },
            KeyCode::Char('+') if self.current_detail_issue().is_some() => {
                let parent_id = match self.current_detail_issue() {
                    Some(issue) => Some(issue.id.clone()),
                    None => None,
                };
                self.start_add_issue(parent_id);
            },
            KeyCode::Backspace => {
                self.history.pop();
                proof {
                    assert(frame_views(self.history@) =~= frame_views(old(self).history@).drop_last());
                }
            },
            KeyCode::Esc => {
                self.history = Vec::new();
                proof {
                    assert(frame_views(self.history@) =~= seq![]);
                }
            },
            KeyCode::Char('q') => {
                return Action::Quit;
            },
            _ => {},
        }
        Action::NoOp
    }

    fn handle_confirm_close_key(&mut self, key: KeyEvent) -> (r: Action)
        requires
            old(self).inv(),
            old(self)@.mode is ConfirmClose,
        ensures
            final(self).inv(),
            (final(self)@, r@) == mode_step(old(self)@, key, false),
    {
        let issue_id = match &self.mode {
            Mode::ConfirmClose(issue_id) => issue_id.clone(),
            _ => {
                return Action::NoOp;
            },
        };
        match key.code {
            KeyCode::Char('y') | KeyCode::Char('Y') => {
                self.mode = Mode::Normal;
                Action::CloseIssue(issue_id)
            },
            KeyCode::Char('n') | KeyCode::Char('N') | KeyCode::Esc => {
                self.mode = Mode::Normal;
                Action::NoOp
            },
            _ => Action::NoOp,
        }
    }

    /// A copy of the go-to query.
    fn query_text(&self) -> (r: String)
        requires
            self@.mode is Search,
        ensures
            self@.mode matches ModeView::Search { query, .. } && r@ == query,
    {
        match &self.mode {
            Mode::Search { query, .. } => query.clone(),
            _ => String::new(),
        }
    }

    /// Replaces the go-to query and rebuilds the matches.
    fn set_query(&mut self, query: String)
        requires
            old(self).inv(),
            old(self)@.mode is Search,
        ensures
            final(self).inv(),
            final(self)@ == with_query(old(self)@, query@),
    {
        let mut mode = Mode::Normal;
        std::mem::swap(&mut mode, &mut self.mode);
        if let Mode::Search { origin_cursor, origin_scroll, .. } = mode {
            self.mode = Mode::Search { query, origin_cursor, origin_scroll };
            self.rebuild_search_rows();
        }
    }

    fn handle_search_key(&mut self, key: KeyEvent) -> (r: Action)
        requires
            old(self).inv(),
            old(self)@.mode is Search,
        ensures
            final(self).inv(),
            (final(self)@, r@) == mode_step(old(self)@, key, false),
    {
        let ctrl = key.modifiers.control;
        let v = self.viewport as i128;
        match key.code {
            KeyCode::Esc => self.cancel_search(),
            KeyCode::Enter => self.open_search_result(),
            KeyCode::Char('d') if ctrl => self.move_cursor(v / 2),
            KeyCode::Char('u') if ctrl => self.set_query(String::new()),
            KeyCode::Down => self.move_cursor(1),
            KeyCode::Up => self.move_cursor(-1),
            KeyCode::PageDown => self.move_cursor(v),
            KeyCode::PageUp => self.move_cursor(-v),
            KeyCode::Home => self.cursor = 0,
            KeyCode::End => self.cursor = if self.rows.len() == 0 {
                0
            } else {
                self.rows.len() - 1
            },
            KeyCode::Backspace => {
                let query = self.query_text();
                let shorter = without_last_char(query);
                self.set_query(shorter);
            },
            KeyCode::Char(character) => {
                if !ctrl && !key.modifiers.alt {
                    let query = self.query_text();
                    let longer = with_char(query, character);
                    self.set_query(longer);
                }
            },
            _ => {},
        }
        Action::NoOp
    }

    fn handle_picker_key(&mut self, key: KeyEvent) -> (r: Action)
        requires
            old(self).inv(),
            old(self)@.mode is Picker,
        ensures
            final(self).inv(),
            (final(self)@, r@) == mode_step(old(self)@, key, false),
    {
        let mut mode = Mode::Normal;
        std::mem::swap(&mut mode, &mut self.mode);
        let mut picker = match mode {
            Mode::Picker(picker) => picker,
            other => {
                self.mode = other;
                return Action::NoOp;
            },
        };
        let last: usize = 4;
        match key.code {
            KeyCode::Char('j') | KeyCode::Down => {
                picker.index = if picker.index + 1 <= last {
                    picker.index + 1
                } else {
                    last
                };
            },
            KeyCode::Char('k') | KeyCode::Up => {
                picker.index = if picker.index == 0 {
                    0
                } else {
                    picker.index - 1
                };
            },
            KeyCode::Char('g') | KeyCode::Home => picker.index = 0,
            KeyCode::Char('G') | KeyCode::End => picker.index = last,
            KeyCode::Esc => {
                return Action::NoOp;
            },
            KeyCode::Enter => {
                return match picker.kind {
                    PickerKind::Status => Action::SetStatus(picker.issue_id, STATUSES[picker.index]),
                    PickerKind::Priority => Action::SetPriority(
                        picker.issue_id,
                        PRIORITIES[picker.index],
                    ),
                };
            },
            _ => {},
        }
        self.mode = Mode::Picker(picker);
        Action::NoOp
    }

    fn handle_add_issue_key(&mut self, key: KeyEvent) -> (r: Action)
        requires
            old(self).inv(),
            old(self)@.mode is AddIssue,
        ensures
            final(self).inv(),
            (final(self)@, r@) == mode_step(old(self)@, key, false),
    {
        let mut mode = Mode::Normal;
        std::mem::swap(&mut mode, &mut self.mode);
        let mut flow = match mode {
            Mode::AddIssue(flow) => flow,
            other => {
                self.mode = other;
                return Action::NoOp;
            },
        };
        let plain = !key.modifiers.control && !key.modifiers.alt;
        if flow.confirming_cancel {
            match key.code {
                KeyCode::Char('y') | KeyCode::Char('Y') => {
                    return Action::NoOp;
                },
                KeyCode::Char('n') | KeyCode::Char('N') | KeyCode::Esc => {
                    flow.confirming_cancel = false;
                },
                _ => {},
            }
            self.mode = Mode::AddIssue(flow);
            return Action::NoOp;
        }
        if let KeyCode::Esc = key.code {
            flow.confirming_cancel = true;
            self.mode = Mode::AddIssue(flow);
            return Action::NoOp;
        }
        let mut action = Action::NoOp;
        match flow.step {
            AddIssueStep::Title => match key.code {
                KeyCode::Enter if !trim(flow.title.as_str()).as_str().is_empty() => {
                    flow.step = AddIssueStep::Description;
                },
                KeyCode::Backspace => {
                    pop_char(&mut flow.title);
                },
                KeyCode::Char('e') if plain && flow.title.as_str().is_empty() => {
                    action = Action::EditAddIssue(AddIssueField::Title);
                },
                KeyCode::Char(character) if plain => push_char(&mut flow.title, character),
                _ => {},
            },
            AddIssueStep::Description => match key.code {
                KeyCode::Enter => flow.step = AddIssueStep::IssueType,
                KeyCode::Backspace => {
                    pop_char(&mut flow.description);
                },
                KeyCode::Char('e') if plain && flow.description.as_str().is_empty() => {
                    action = Action::EditAddIssue(AddIssueField::Description);
                },
                KeyCode::Char(character) if plain => push_char(&mut flow.description, character),
                _ => {},
            },
            AddIssueStep::IssueType => match key.code {
                KeyCode::Char('j') | KeyCode::Down => {
                    flow.issue_type_index = if flow.issue_type_index + 1 <= 5 {
                        flow.issue_type_index + 1
                    } else {
                        5
                    };
                },
                KeyCode::Char('k') | KeyCode::Up => {
                    flow.issue_type_index = if flow.issue_type_index == 0 {
                        0
                    } else {
                        flow.issue_type_index - 1
                    };
                },
                KeyCode::Char('g') | KeyCode::Home => flow.issue_type_index = 0,
                KeyCode::Char('G') | KeyCode::End => flow.issue_type_index = 5,
                KeyCode::Enter => flow.step = AddIssueStep::Priority,
                KeyCode::Backspace => flow.step = AddIssueStep::Description,
                _ => {},
            },
            AddIssueStep::Priority => match key.code {
                KeyCode::Char('j') | KeyCode::Down => {
                    flow.priority_index = if flow.priority_index + 1 <= 4 {
                        flow.priority_index + 1
                    } else {
                        4
                    };
                },
                KeyCode::Char('k') | KeyCode::Up => {
                    flow.priority_index = if flow.priority_index == 0 {
                        0
                    } else {
                        flow.priority_index - 1
                    };
                },
                KeyCode::Char('g') | KeyCode::Home => flow.priority_index = 0,
                KeyCode::Char('G') | KeyCode::End => flow.priority_index = 4,
                KeyCode::Enter => {
                    action = Action::CreateIssue(flow.draft());
                },
                KeyCode::Backspace => flow.step = AddIssueStep::IssueType,
                _ => {},
            },
        }
        self.mode = Mode::AddIssue(flow);
        action
    }

    /// One key press with `chord_expired` telling whether a pending `e` has
    /// waited past its timeout: the status line clears, Control-C quits from
    /// anywhere, otherwise the open mode or the visible screen takes the key.
    pub fn handle_key_timed(&mut self, key: KeyEvent, chord_expired: bool) -> (r: Action)
        requires
            old(self).inv(),
        ensures
            final(self).inv() || r@ == ActionView::Quit,
            (final(self)@, r@) == key_step(old(self)@, key, chord_expired),
    {
        self.status_message = None;
        if key.modifiers.control {
            if let KeyCode::Char('c') = key.code {
                self.mode = Mode::Normal;
                self.edit_key_started = None;
                return Action::Quit;
            }
        }
        match &self.mode {
            Mode::AddIssue(_) => self.handle_add_issue_key(key),
            Mode::ConfirmClose(_) => self.handle_confirm_close_key(key),
            Mode::Search { .. } => self.handle_search_key(key),
            Mode::Picker(_) => self.handle_picker_key(key),
            Mode::Normal => if self.history.len() == 0 {
                self.handle_tree_key(key, chord_expired)
            } else {
                self.handle_detail_key(key, chord_expired)
            },
        }
    }

    /// One key press, with the clock deciding whether a pending `e` has timed
    /// out.
    pub fn handle_key(&mut self, key: KeyEvent) -> (r: Action)
        requires
            old(self).inv(),
        ensures
            final(self).inv() || r@ == ActionView::Quit,
            exists|chord_expired: bool|
                (final(self)@, r@) == key_step(old(self)@, key, chord_expired),
    {
        let expired = match &self.edit_key_started {
            Some(started) => nanos_of(&elapsed_since(started)) >= EDIT_SEQUENCE_NANOS as u128,
            None => false,
        };
        self.handle_key_timed(key, expired)
    }

    /// Rebuilds the tree rows, keeping the selected path selected when it is
    /// still shown.
    /// Replaces the graph with a reloaded one. The selection stays on its path,
    /// or else on the nearest row of the same issue, at the same height in the
    /// view; expanded branches that left the tree reopen where their issue now
    /// stands; task views of issues that are gone close. An add-issue flow
    /// survives; search and close confirmation end.
    pub fn refresh_graph(&mut self, graph: IssueGraph)
        requires
            old(self).inv() || old(self).refreshable(),
        ensures
            final(self).inv(),
            final(self)@ == refreshed(old(self)@, graph@),
            old(self)@.mode is Normal && old(self)@.cursor < old(self)@.rows.len() && first_path_index(
                final(self)@.rows,
                old(self)@.rows[old(self)@.cursor as int].path,
            ) is Some ==> final(self)@.rows[final(self)@.cursor as int].path == old(
                self,
            )@.rows[old(self)@.cursor as int].path,
            ({
                let before = old(self)@;
                let after = final(self)@;
                before.mode is Normal && before.cursor < before.rows.len() && first_path_index(
                    after.rows,
                    before.rows[before.cursor as int].path,
                ) is None && (exists|m: int|
                    0 <= m < after.rows.len() && #[trigger] after.rows[m].issue_id
                        == before.rows[before.cursor as int].issue_id) ==> after.rows[after.cursor as int].issue_id
                    == before.rows[before.cursor as int].issue_id
            }),
    {
        let ghost s0 = self@;
        self.refresh_with(graph);
        let n = self.rows.len();
        proof {
            if s0.mode is Normal && s0.cursor < s0.rows.len() {
                let p = s0.rows[s0.cursor as int].path;
                lemma_first_path_index(self@.rows, p);
                let anchor = refresh_anchor(s0);
                assert(anchor.0 == Some(s0.rows[s0.cursor as int]));
                assert(self@.rows.len() == self.rows@.len()) by {
                    self.lemma_view_fields();
                }
                if first_path_index(self@.rows, p) is Some {
                    let k = first_path_index(self@.rows, p)->Some_0;
                    assert(k < n);
                    assert(refresh_target(self@.rows, anchor.0, anchor.1) == k);
                    assert(self@.cursor == k);
                } else {
                    let id = s0.rows[s0.cursor as int].issue_id;
                    lemma_nearest_issue_index(self@.rows, id, s0.cursor as int, self@.rows.len());
                    if nearest_issue_index(self@.rows, id, s0.cursor as int, self@.rows.len()) is Some {
                        let k = nearest_issue_index(self@.rows, id, s0.cursor as int, self@.rows.len())->Some_0;
                        assert(refresh_target(self@.rows, anchor.0, anchor.1) == k);
                        assert(self@.cursor == k);
                    }
                }
            }
        }
    }

    /// What a refresh needs of the state it starts from: less than the full
    /// invariant, since the rows are rebuilt.
    pub closed spec fn refreshable(&self) -> bool {
        &&& self@.tree_rows.len() >= 1
        &&& (self@.mode matches ModeView::AddIssue(f) ==> f.issue_type_index < 6
            && f.priority_index < 5)
        &&& path_views(self.expanded@).no_duplicates()
    }

    fn refresh_with(&mut self, graph: IssueGraph)
        requires
            old(self).refreshable(),
        ensures
            final(self).inv(),
            final(self)@ == refreshed(old(self)@, graph@),
    {
        let ghost s0 = self@;
        let ghost anchor = refresh_anchor(s0);
        graph.shape();
        assert(row_views(self.tree_rows@).len() == self.tree_rows@.len());
        assert(row_views(self.rows@).len() == self.rows@.len());
        let (selected, old_cursor, old_scroll): (Option<(Vec<String>, String)>, usize, usize) =
            match &self.mode {
            Mode::Search { origin_cursor, origin_scroll, .. } => {
                let last = self.tree_rows.len() - 1;
                let c = if *origin_cursor <= last {
                    *origin_cursor
                } else {
                    last
                };
                let row = &self.tree_rows[c];
                (Some((clone_strings(&row.path), row.issue_id.clone())), c, *origin_scroll)
            },
            _ => {
                let selected = if self.cursor < self.rows.len() {
                    let row = &self.rows[self.cursor];
                    Some((clone_strings(&row.path), row.issue_id.clone()))
                } else {
                    None
                };
                (selected, self.cursor, self.scroll)
            },
        };
        proof {
            assert(old_cursor == anchor.1 && old_scroll == anchor.2);
            assert(selected is Some ==> anchor.0 is Some && string_views(selected->Some_0.0@)
                == anchor.0->Some_0.path && selected->Some_0.1@ == anchor.0->Some_0.issue_id);
            assert(selected is None ==> anchor.0 is None);
        }
        let offset = if old_cursor >= old_scroll {
            old_cursor - old_scroll
        } else {
            0
        };
        let moved = moved_issue_ids(&graph, &self.expanded);
        let kept = kept_expanded(&graph, &self.expanded);
        self.graph = graph;
        match self.mode {
            Mode::AddIssue(_) => {},
            _ => {
                self.mode = Mode::Normal;
            },
        }
        self.edit_key_started = None;
        let (rows, restored) = build_tree_rows(&self.graph, &kept, Some(&moved));
        let mut expanded = kept;
        add_paths(&mut expanded, restored);
        self.expanded = expanded;
        assert(row_views(rows@).len() == rows@.len());
        self.tree_rows = clone_rows(&rows);
        self.rows = rows;
        let target: usize = match &selected {
            Some((path, id)) => match find_row_path(&self.rows, path) {
                Some(k) => k,
                None => match nearest_row(&self.rows, id.as_str(), old_cursor) {
                    Some(k) => k,
                    None => old_cursor,
                },
            },
            None => old_cursor,
        };
        let last = self.rows.len() - 1;
        self.cursor = if target <= last {
            target
        } else {
            last
        };
        self.scroll = if self.cursor >= offset {
            self.cursor - offset
        } else {
            0
        };
        let history = kept_history(&self.graph, &self.history);
        self.history = history;
        proof {
            assert(target as int == refresh_target(self@.rows, anchor.0, anchor.1));
        }
    }

    /// Puts the issue `bd` has just edited in place of its old version; the
    /// shape of the tree stays as it is.
    pub fn apply_edited_issue(&mut self, issue: Issue)
        requires
            old(self).inv(),
        ensures
            final(self).inv(),
            forall|id: Seq<char>| #[trigger]
                final(self)@.graph.issue(id) == if id == issue@.id {
                    Some(issue@)
                } else {
                    old(self)@.graph.issue(id)
                },
            final(self)@.graph.order == old(self)@.graph.order,
            final(self)@.graph.parents == old(self)@.graph.parents,
            final(self)@.graph.child_lists == old(self)@.graph.child_lists,
            final(self)@.graph.roots == old(self)@.graph.roots,
            final(self)@ == (AppView { graph: final(self)@.graph, ..old(self)@ }),
    {
        self.graph.replace_issue(issue);
        self.graph.shape();
    }

    /// Closes `issue_id` in the view ahead of `bd`: back to the tree, the graph
    /// replaced by one where the issue is closed, and a status line saying so.
    /// Returns the graph as it was, to restore should `bd` refuse.
    pub fn close_optimistically(&mut self, issue_id: &str) -> (rollback: IssueGraph)
        requires
            old(self).inv(),
        ensures
            final(self).inv(),
            rollback@ == old(self)@.graph,
            exists|g: IssueGraphView|
                g.built_from(
                    listed_without(old(self)@.graph.order, old(self)@.graph.issues, issue_id@),
                    context_after_close(old(self)@.graph, issue_id@),
                ) && final(self)@ == (AppView {
                    status: Some("Closing "@ + issue_id@ + "…"@),
                    ..refreshed(
                        AppView {
                            history: seq![],
                            mode: ModeView::Normal,
                            chord_pending: false,
                            ..old(self)@
                        },
                        g,
                    )
                }),
    {
        let rollback = self.graph.duplicate();
        let optimistic = self.graph.with_issue_closed(issue_id);
        self.history = Vec::new();
        self.mode = Mode::Normal;
        self.edit_key_started = None;
        proof {
            assert(frame_views(self.history@) =~= seq![]);
        }
        self.refresh_with(optimistic);
        let mut message = String::new();
        push_text(&mut message, "Closing ");
        push_text(&mut message, issue_id);
        push_text(&mut message, "…");
        self.set_status(message);
        rollback
    }

    /// Whether `path` still runs from a root down the tree edges of `graph`.
    fn tree_path_exists(graph: &IssueGraph, path: &Vec<String>) -> (r: bool)
        ensures
            r == path_in_tree(graph@, string_views(path@)),
    {
        let ghost pv = string_views(path@);
        if path.len() == 0 {
            return false;
        }
        if !slice_contains(graph.roots(), path[0].as_str()) {
            return false;
        }
        let mut i: usize = 0;
        while i < path.len() - 1
            invariant
                pv == string_views(path@),
                1 <= path@.len(),
                i < path@.len(),
                forall|j: int| 0 <= j < i ==> #[trigger] graph@.children_of(pv[j]).contains(pv[j + 1]),
            decreases path@.len() - i,
        {
            if !slice_contains(graph.tree_children(path[i].as_str()), path[i + 1].as_str()) {
                proof {
                    assert(!graph@.children_of(pv[i as int]).contains(pv[i + 1]));
                }
                return false;
            }
            i = i + 1;
        }
        true
    }

    fn rebuild_rows(&mut self)
        requires
            old(self).inv(),
            old(self)@.mode !is Search,
        ensures
            final(self).inv(),
            final(self)@ == rebuilt(old(self)@),
    {
        let selected = if self.cursor < self.rows.len() {
            Some(clone_strings(&self.rows[self.cursor].path))
        } else {
            None
        };
        let (rows, _) = build_tree_rows(&self.graph, &self.expanded, None);
        assert(row_views(rows@).len() == rows@.len());
        self.tree_rows = clone_rows(&rows);
        self.rows = rows;
        if let Some(path) = selected {
            if let Some(position) = find_row_path(&self.rows, &path) {
                self.cursor = position;
            }
        }
        let last = self.rows.len() - 1;
        if self.cursor > last {
            self.cursor = last;
        }
    }
}

} // verus!
