//! What holds of the explorer across calls: prompts and menus that are
//! dismissed leave no trace, go-to shows only what the tree shows, a refresh
//! leaves nothing behind that the new graph does not have, the tree's rows
//! are distinct paths of the tree drawn with the branch glyphs of their place,
//! the tree walk is never cut short for depth, `Tab` flips a fold, the add
//! flow's lists move one step at a time, and padded cells and wrapped lines
//! keep to their widths.
use vstd::prelude::*;
use crate::app::{
    ActionView, AppView, ModeView, key_step, search_rows, id_matches, refreshed, kept_frames,
    path_in_tree, kept_paths, moved_ids, last_index, selected_row_has_children,
    AddIssueFlowView, AddIssueStep,
};
use crate::keys::{KeyCode, KeyEvent, KeyModifiers};
use crate::model::{IssueGraphView, child_list};
use crate::tree::{
    TreeRowView, tree_rows_of, walk, walk_children, root_rows, opens, indent_prefix, create_row,
};
use crate::ui::{
    table_widths_of, text_width, spaces, truncated, padded, joined_width, split_long, wrap_words,
    wrapped_paragraph, wrapped_paragraphs, wrapped,
};
use crate::text::{words_of, lines_of, is_blank};

verus! {

/// A key pressed with no modifier.
pub open spec fn plain(code: KeyCode) -> KeyEvent {
    KeyEvent { code, modifiers: KeyModifiers { control: false, alt: false } }
}

/// Opening go-to with `/` and leaving it with `Esc` gives back the tree
/// exactly as it was: the same rows, the same selection, the same scroll.
pub proof fn law_search_escape_restores(s: AppView, e1: bool, e2: bool)
    requires
        s.wf(),
        s.mode is Normal,
        s.history.len() == 0,
        !s.chord_pending,
        s.status is None,
    ensures
        key_step(s, plain(KeyCode::Char('/')), e1).1 == ActionView::NoOp,
        key_step(key_step(s, plain(KeyCode::Char('/')), e1).0, plain(KeyCode::Esc), e2) == (
        s,
        ActionView::NoOp,
        ),
{
}

/// Asking to close an issue with `x` and answering `n` changes nothing.
pub proof fn law_close_declined(s: AppView, e1: bool, e2: bool)
    requires
        s.wf(),
        s.mode is Normal,
        !s.chord_pending,
        s.status is None,
    ensures
        key_step(key_step(s, plain(KeyCode::Char('x')), e1).0, plain(KeyCode::Char('n')), e2).0
            == s,
{
}

/// Opening the status menu with `s` on an issue and leaving it with `Esc`
/// changes nothing.
pub proof fn law_status_menu_escape_restores(s: AppView, e1: bool, e2: bool)
    requires
        s.wf(),
        s.mode is Normal,
        !s.chord_pending,
        s.status is None,
        s.current_issue() is Some,
    ensures
        key_step(key_step(s, plain(KeyCode::Char('s')), e1).0, plain(KeyCode::Esc), e2) == (
        s,
        ActionView::NoOp,
        ),
{
}

/// In the add-issue flow, `Esc` asks before discarding, and `n` goes back to
/// the flow exactly as it was.
pub proof fn law_add_issue_keep_editing(s: AppView, e1: bool, e2: bool)
    requires
        s.wf(),
        s.mode matches ModeView::AddIssue(f) && !f.confirming_cancel,
        s.status is None,
    ensures
        key_step(s, plain(KeyCode::Esc), e1).0.mode matches ModeView::AddIssue(g)
            && g.confirming_cancel,
        key_step(key_step(s, plain(KeyCode::Esc), e1).0, plain(KeyCode::Char('n')), e2) == (
        s,
        ActionView::NoOp,
        ),
{
}

/// Go-to shows exactly the rows of the tree as it is shown (children of
/// collapsed issues are not among them), other than the create entry, whose
/// issue ID matches the query, in tree order.
pub proof fn law_search_shows_visible_matches(rows: Seq<TreeRowView>, query: Seq<char>)
    ensures
        forall|i: int|
            0 <= i < search_rows(rows, query).len() ==> rows.contains(
                #[trigger] search_rows(rows, query)[i],
            ) && search_rows(rows, query)[i].path.len() > 0 && id_matches(
                search_rows(rows, query)[i].issue_id,
                query,
            ),
        forall|i: int|
            0 <= i < rows.len() && rows[i].path.len() > 0 && id_matches(rows[i].issue_id, query)
                ==> search_rows(rows, query).contains(#[trigger] rows[i]),
    decreases rows.len(),
{
    if rows.len() > 0 {
        let rest = rows.drop_last();
        law_search_shows_visible_matches(rest, query);
        assert forall|i: int| 0 <= i < search_rows(rows, query).len() implies rows.contains(
            #[trigger] search_rows(rows, query)[i],
        ) && search_rows(rows, query)[i].path.len() > 0 && id_matches(
            search_rows(rows, query)[i].issue_id,
            query,
        ) by {
            if i < search_rows(rest, query).len() {
                let r = search_rows(rest, query)[i];
                assert(search_rows(rows, query)[i] == r);
                let j = choose|j: int| 0 <= j < rest.len() && rest[j] == r;
                assert(rows[j] == r);
            } else {
                assert(search_rows(rows, query)[i] == rows.last());
                assert(rows[rows.len() - 1] == rows.last());
            }
        }
        assert forall|i: int|
            0 <= i < rows.len() && rows[i].path.len() > 0 && id_matches(
                rows[i].issue_id,
                query,
            ) implies search_rows(rows, query).contains(#[trigger] rows[i]) by {
            if i < rows.len() - 1 {
                assert(rest[i] == rows[i]);
                assert(search_rows(rest, query).contains(rest[i]));
                let j = choose|j: int|
                    0 <= j < search_rows(rest, query).len() && search_rows(rest, query)[j]
                        == rest[i];
                assert(search_rows(rows, query)[j] == rows[i]);
            } else {
                let n = search_rows(rest, query).len() as int;
                assert(search_rows(rows, query)[n] == rows[i]);
            }
        }
    }
}

/// In every state of the explorer that is in go-to, each row shown is a row of
/// the tree as it was shown (children of collapsed issues are not among them),
/// never the create entry, with an ID that matches the query; and each such
/// tree row is shown.
pub proof fn law_go_to_shows_visible_matches(s: AppView)
    requires
        s.wf(),
        s.mode is Search,
    ensures
        forall|i: int|
            0 <= i < s.rows.len() ==> s.tree_rows.contains(#[trigger] s.rows[i]) && s.rows[i].path.len()
                > 0 && id_matches(s.rows[i].issue_id, s.mode->query),
        forall|i: int|
            0 <= i < s.tree_rows.len() && s.tree_rows[i].path.len() > 0 && id_matches(
                s.tree_rows[i].issue_id,
                s.mode->query,
            ) ==> s.rows.contains(#[trigger] s.tree_rows[i]),
{
    law_search_shows_visible_matches(s.tree_rows, s.mode->query);
}

/// The five columns of the issue table always fill exactly the width left
/// after the separators.
pub proof fn law_table_fills_width(width: int, id_hint: int, sep: int)
    requires
        0 <= width,
        0 <= sep,
    ensures
        ({
            let w = table_widths_of(width, id_hint, sep);
            &&& w.len() == 5
            &&& w[0] + w[1] + w[2] + w[3] + w[4] == if width >= 4 * sep {
                width - 4 * sep
            } else {
                0
            }
            &&& forall|i: int| 0 <= i < 5 ==> w[i] >= 0
        }),
{
    let usable = if width >= 4 * sep {
        width - 4 * sep
    } else {
        0
    };
    assert(usable / 5 * 5 <= usable) by (nonlinear_arith)
        requires
            usable >= 0,
    ;
}

/// After a refresh every task view left open shows an issue the new graph
/// holds, with its dependency cursor on one of its dependencies (or at the
/// start when it has none).
pub proof fn law_refresh_keeps_only_known_issues(s: AppView, g: IssueGraphView)
    ensures
        forall|i: int|
            0 <= i < refreshed(s, g).history.len() ==> (g.issue(
                (#[trigger] refreshed(s, g).history[i]).issue_id,
            ) matches Some(issue) && refreshed(s, g).history[i].dependency_cursor <= last_index(
                issue.dependencies.len(),
            )),
{
    lemma_kept_frames(g, s.history);
}

proof fn lemma_kept_frames(g: IssueGraphView, h: Seq<crate::app::DetailFrameView>)
    ensures
        forall|i: int|
            0 <= i < kept_frames(g, h).len() ==> (g.issue(
                (#[trigger] kept_frames(g, h)[i]).issue_id,
            ) matches Some(issue) && kept_frames(g, h)[i].dependency_cursor <= last_index(
                issue.dependencies.len(),
            )),
    decreases h.len(),
{
    if h.len() > 0 {
        lemma_kept_frames(g, h.drop_last());
        let before = kept_frames(g, h.drop_last());
        assert forall|i: int| 0 <= i < kept_frames(g, h).len() implies (g.issue(
            (#[trigger] kept_frames(g, h)[i]).issue_id,
        ) matches Some(issue) && kept_frames(g, h)[i].dependency_cursor <= last_index(
            issue.dependencies.len(),
        )) by {
            if i < before.len() {
                assert(kept_frames(g, h)[i] == before[i]);
            }
        }
    }
}

proof fn lemma_path_extend(g: IssueGraphView, path: Seq<Seq<char>>, child: Seq<char>)
    requires
        path_in_tree(g, path),
        g.children_of(path.last()).contains(child),
    ensures
        path_in_tree(g, path.push(child)),
{
    let q = path.push(child);
    assert(q[0] == path[0]);
    assert forall|i: int| 0 <= i < q.len() - 1 implies #[trigger] g.children_of(q[i]).contains(
        q[i + 1],
    ) by {
        if i < path.len() - 1 {
            assert(q[i] == path[i] && q[i + 1] == path[i + 1]);
            assert(g.children_of(path[i]).contains(path[i + 1]));
        } else {
            assert(q[i] == path.last());
            assert(q[i + 1] == child);
        }
    }
}

proof fn lemma_walk_in_tree(
    g: IssueGraphView,
    expanded: Set<Seq<Seq<char>>>,
    reopen: Option<Set<Seq<char>>>,
    path: Seq<Seq<char>>,
    prefix: Seq<char>,
    fuel: nat,
)
    requires
        path_in_tree(g, path),
    ensures
        forall|i: int|
            0 <= i < walk(g, expanded, reopen, path, prefix, fuel).1.len() ==> path_in_tree(
                g,
                #[trigger] walk(g, expanded, reopen, path, prefix, fuel).1[i],
            ),
    decreases fuel, 1nat, 0nat,
{
    if path.len() > 0 && opens(expanded, reopen, path) {
        let kids = g.children_of(path.last());
        lemma_walk_children_in_tree(g, expanded, reopen, path, prefix, kids, kids.len(), fuel);
        let r = walk_children(g, expanded, reopen, path, prefix, kids, kids.len(), fuel);
        let w = walk(g, expanded, reopen, path, prefix, fuel);
        assert(w.1 == seq![path] + r.1);
        assert forall|i: int| 0 <= i < w.1.len() implies path_in_tree(g, #[trigger] w.1[i]) by {
            if i > 0 {
                assert(w.1[i] == r.1[i - 1]);
            }
        }
    }
}

proof fn lemma_walk_children_in_tree(
    g: IssueGraphView,
    expanded: Set<Seq<Seq<char>>>,
    reopen: Option<Set<Seq<char>>>,
    path: Seq<Seq<char>>,
    prefix: Seq<char>,
    kids: Seq<Seq<char>>,
    n: nat,
    fuel: nat,
)
    requires
        path_in_tree(g, path),
        kids == g.children_of(path.last()),
    ensures
        forall|i: int|
            0 <= i < walk_children(g, expanded, reopen, path, prefix, kids, n, fuel).1.len()
                ==> path_in_tree(
                g,
                #[trigger] walk_children(g, expanded, reopen, path, prefix, kids, n, fuel).1[i],
            ),
    decreases fuel, 0nat, n,
{
    if n > 0 && n <= kids.len() {
        lemma_walk_children_in_tree(g, expanded, reopen, path, prefix, kids, (n - 1) as nat, fuel);
        let before = walk_children(g, expanded, reopen, path, prefix, kids, (n - 1) as nat, fuel);
        let child = kids[n - 1];
        let last = n == kids.len();
        let child_path = path.push(child);
        let w = walk_children(g, expanded, reopen, path, prefix, kids, n, fuel);
        if !(path.contains(child) || fuel == 0) {
            assert(kids.contains(child));
            lemma_path_extend(g, path, child);
            lemma_walk_in_tree(
                g,
                expanded,
                reopen,
                child_path,
                indent_prefix(prefix, last),
                (fuel - 1) as nat,
            );
            let below = walk(
                g,
                expanded,
                reopen,
                child_path,
                indent_prefix(prefix, last),
                (fuel - 1) as nat,
            );
            assert(w.1 == before.1 + below.1);
            assert forall|i: int| 0 <= i < w.1.len() implies path_in_tree(g, #[trigger] w.1[i]) by {
                if i < before.1.len() {
                    assert(w.1[i] == before.1[i]);
                } else {
                    assert(w.1[i] == below.1[i - before.1.len()]);
                }
            }
        } else {
            assert(w.1 =~= before.1);
        }
    }
}

proof fn lemma_root_rows_in_tree(
    g: IssueGraphView,
    expanded: Set<Seq<Seq<char>>>,
    reopen: Option<Set<Seq<char>>>,
    n: nat,
)
    ensures
        forall|i: int|
            0 <= i < root_rows(g, expanded, reopen, n).1.len() ==> path_in_tree(
                g,
                #[trigger] root_rows(g, expanded, reopen, n).1[i],
            ),
    decreases n,
{
    if n > 0 && n <= g.roots.len() {
        lemma_root_rows_in_tree(g, expanded, reopen, (n - 1) as nat);
        let before = root_rows(g, expanded, reopen, (n - 1) as nat);
        let id = g.roots[n - 1];
        let root_path = seq![id];
        assert(g.roots.contains(id));
        assert(root_path[0] == id);
        assert(path_in_tree(g, root_path));
        lemma_walk_in_tree(g, expanded, reopen, root_path, seq![], g.order.len());
        let below = walk(g, expanded, reopen, root_path, seq![], g.order.len());
        let w = root_rows(g, expanded, reopen, n);
        assert(w.1 == before.1 + below.1);
        assert forall|i: int| 0 <= i < w.1.len() implies path_in_tree(g, #[trigger] w.1[i]) by {
            if i < before.1.len() {
                assert(w.1[i] == before.1[i]);
            } else {
                assert(w.1[i] == below.1[i - before.1.len()]);
            }
        }
    }
}

/// After a refresh no branch is left expanded that does not run from a root
/// of the new graph down its tree edges: paths that left the tree do not
/// linger, so a later refresh cannot bring one back and open a branch the
/// user never opened.
pub proof fn law_refresh_keeps_only_tree_paths(s: AppView, g: IssueGraphView)
    ensures
        forall|p: Seq<Seq<char>>| #[trigger]
            refreshed(s, g).expanded.contains(p) ==> path_in_tree(g, p),
{
    let kept = kept_paths(g, s.expanded);
    let reopen = Some(moved_ids(g, s.expanded));
    lemma_root_rows_in_tree(g, kept, reopen, g.roots.len());
    let built = tree_rows_of(g, kept, reopen);
    assert(built.1 == root_rows(g, kept, reopen, g.roots.len()).1);
    assert forall|p: Seq<Seq<char>>| #[trigger]
        refreshed(s, g).expanded.contains(p) implies path_in_tree(g, p) by {
        if !kept.contains(p) {
            assert(built.1.contains(p));
            let i = choose|i: int| 0 <= i < built.1.len() && built.1[i] == p;
            assert(path_in_tree(g, built.1[i]));
        }
    }
}

proof fn lemma_child_list_listed(
    parents: Seq<Seq<char>>,
    lists: Seq<Seq<Seq<char>>>,
    parent: Seq<char>,
    order: Seq<Seq<char>>,
)
    requires
        parents.len() <= lists.len(),
        forall|k: int, m: int|
            0 <= k < lists.len() && 0 <= m < lists[k].len() ==> order.contains(
                #[trigger] lists[k][m],
            ),
    ensures
        forall|i: int|
            0 <= i < child_list(parents, lists, parent).len() ==> order.contains(
                #[trigger] child_list(parents, lists, parent)[i],
            ),
    decreases parents.len(),
{
    if parents.len() > 0 && lists.len() > 0 {
        if parents.last() == parent {
            let k = parents.len() - 1;
            assert(child_list(parents, lists, parent) == lists[k]);
            assert forall|i: int| 0 <= i < lists[k].len() implies order.contains(
                #[trigger] lists[k][i],
            ) by {}
        } else {
            lemma_child_list_listed(parents.drop_last(), lists, parent, order);
            assert(child_list(parents, lists, parent) == child_list(parents.drop_last(), lists, parent));
        }
    }
}

/// A path without repeats through listed issues is no longer than the list.
proof fn lemma_path_within_order(p: Seq<Seq<char>>, order: Seq<Seq<char>>)
    requires
        p.no_duplicates(),
        order.no_duplicates(),
        forall|i: int| 0 <= i < p.len() ==> order.contains(#[trigger] p[i]),
    ensures
        p.len() <= order.len(),
{
    p.unique_seq_to_set();
    order.unique_seq_to_set();
    assert(p.to_set().subset_of(order.to_set())) by {
        assert forall|x: Seq<char>| #[trigger] p.to_set().contains(x) implies order.to_set().contains(
            x,
        ) by {
            let i = choose|i: int| 0 <= i < p.len() && p[i] == x;
            assert(order.contains(p[i]));
        }
    }
    vstd::seq_lib::seq_to_set_is_finite(order);
    vstd::set_lib::lemma_len_subset(p.to_set(), order.to_set());
}

/// Where a walk of a repeat-free path starts with fuel enough for every listed
/// issue not on it yet, more fuel changes nothing.
proof fn lemma_walk_fuel(
    g: IssueGraphView,
    expanded: Set<Seq<Seq<char>>>,
    reopen: Option<Set<Seq<char>>>,
    path: Seq<Seq<char>>,
    prefix: Seq<char>,
    fuel: nat,
    more: nat,
)
    requires
        g.wf(),
        path.len() >= 1,
        path.no_duplicates(),
        forall|i: int| 0 <= i < path.len() ==> g.order.contains(#[trigger] path[i]),
        fuel + path.len() >= g.order.len() + 1,
        fuel <= more,
    ensures
        walk(g, expanded, reopen, path, prefix, fuel) == walk(g, expanded, reopen, path, prefix, more),
    decreases fuel, 1nat, 0nat,
{
    if opens(expanded, reopen, path) {
        let kids = g.children_of(path.last());
        lemma_walk_children_fuel(g, expanded, reopen, path, prefix, kids, kids.len(), fuel, more);
    }
}

proof fn lemma_walk_children_fuel(
    g: IssueGraphView,
    expanded: Set<Seq<Seq<char>>>,
    reopen: Option<Set<Seq<char>>>,
    path: Seq<Seq<char>>,
    prefix: Seq<char>,
    kids: Seq<Seq<char>>,
    n: nat,
    fuel: nat,
    more: nat,
)
    requires
        g.wf(),
        path.len() >= 1,
        path.no_duplicates(),
        forall|i: int| 0 <= i < path.len() ==> g.order.contains(#[trigger] path[i]),
        fuel + path.len() >= g.order.len() + 1,
        fuel <= more,
        kids == g.children_of(path.last()),
    ensures
        walk_children(g, expanded, reopen, path, prefix, kids, n, fuel) == walk_children(
            g,
            expanded,
            reopen,
            path,
            prefix,
            kids,
            n,
            more,
        ),
    decreases fuel, 0nat, n,
{
    if n > 0 && n <= kids.len() {
        lemma_walk_children_fuel(g, expanded, reopen, path, prefix, kids, (n - 1) as nat, fuel, more);
        let child = kids[n - 1];
        if !path.contains(child) {
            lemma_child_list_listed(g.parents, g.child_lists, path.last(), g.order);
            assert(g.order.contains(child));
            let child_path = path.push(child);
            assert forall|i: int| 0 <= i < child_path.len() implies g.order.contains(
                #[trigger] child_path[i],
            ) by {
                if i < path.len() {
                    assert(child_path[i] == path[i]);
                }
            }
            assert(child_path.no_duplicates()) by {
                assert forall|i: int, j: int|
                    0 <= i < child_path.len() && 0 <= j < child_path.len() && i != j implies child_path[i]
                    != child_path[j] by {
                    if i < path.len() && j < path.len() {
                        assert(child_path[i] == path[i] && child_path[j] == path[j]);
                    } else if i < path.len() {
                        assert(child_path[i] == path[i]);
                    } else if j < path.len() {
                        assert(child_path[j] == path[j]);
                    }
                }
            }
            lemma_path_within_order(child_path, g.order);
            let last = n == kids.len();
            lemma_walk_fuel(
                g,
                expanded,
                reopen,
                child_path,
                indent_prefix(prefix, last),
                (fuel - 1) as nat,
                (more - 1) as nat,
            );
        }
    }
}

/// The tree is never cut short for depth: walking below each root with as much
/// fuel as there are listed issues gives the same rows and open paths as
/// walking with any more, so the rows are those of the unbounded walk that
/// stops only where a path would repeat an issue.
pub proof fn law_tree_walk_is_complete(
    g: IssueGraphView,
    expanded: Set<Seq<Seq<char>>>,
    reopen: Option<Set<Seq<char>>>,
    k: int,
    more: nat,
)
    requires
        g.wf(),
        0 <= k < g.roots.len(),
        more >= g.order.len(),
    ensures
        walk(g, expanded, reopen, seq![g.roots[k]], seq![], g.order.len()) == walk(
            g,
            expanded,
            reopen,
            seq![g.roots[k]],
            seq![],
            more,
        ),
{
    let p = seq![g.roots[k]];
    assert(g.order.contains(g.roots[k]));
    assert(p[0] == g.roots[k]);
    lemma_walk_fuel(g, expanded, reopen, p, seq![], g.order.len(), more);
}

/// No two of `rows` have the same path.
pub open spec fn distinct_paths(rows: Seq<TreeRowView>) -> bool {
    forall|i: int, j: int|
        0 <= i < rows.len() && 0 <= j < rows.len() && i != j ==> #[trigger] rows[i].path
            != #[trigger] rows[j].path
}

/// What the rows below `path` are: longer paths that start with `path`, each
/// a path of the tree, no two alike.
pub open spec fn rows_below(g: IssueGraphView, path: Seq<Seq<char>>, rows: Seq<TreeRowView>) -> bool {
    &&& forall|i: int|
        0 <= i < rows.len() ==> (#[trigger] rows[i]).path.len() > path.len()
            && rows[i].path.subrange(0, path.len() as int) == path && path_in_tree(g, rows[i].path)
    &&& distinct_paths(rows)
}

proof fn lemma_concat_distinct(a: Seq<TreeRowView>, b: Seq<TreeRowView>)
    requires
        distinct_paths(a),
        distinct_paths(b),
        forall|i: int, j: int| 0 <= i < a.len() && 0 <= j < b.len() ==> a[i].path != b[j].path,
    ensures
        distinct_paths(a + b),
{
    let c = a + b;
    assert forall|i: int, j: int|
        0 <= i < c.len() && 0 <= j < c.len() && i != j implies #[trigger] c[i].path
        != #[trigger] c[j].path by {
        if i < a.len() && j < a.len() {
            assert(c[i] == a[i] && c[j] == a[j]);
        } else if i < a.len() {
            assert(c[i] == a[i] && c[j] == b[j - a.len()]);
        } else if j < a.len() {
            assert(c[j] == a[j] && c[i] == b[i - a.len()]);
            assert(a[j].path != b[i - a.len()].path);
        } else {
            assert(c[i] == b[i - a.len()] && c[j] == b[j - a.len()]);
        }
    }
}

proof fn lemma_child_list_unique(parents: Seq<Seq<char>>, lists: Seq<Seq<Seq<char>>>, parent: Seq<char>)
    requires
        parents.len() <= lists.len(),
        forall|k: int| 0 <= k < lists.len() ==> (#[trigger] lists[k]).no_duplicates(),
    ensures
        child_list(parents, lists, parent).no_duplicates(),
    decreases parents.len(),
{
    if parents.len() > 0 && lists.len() > 0 {
        if parents.last() == parent {
            assert(child_list(parents, lists, parent) == lists[parents.len() - 1]);
        } else {
            lemma_child_list_unique(parents.drop_last(), lists, parent);
            assert(child_list(parents, lists, parent) == child_list(parents.drop_last(), lists, parent));
        }
    }
}

proof fn lemma_walk_rows(
    g: IssueGraphView,
    expanded: Set<Seq<Seq<char>>>,
    reopen: Option<Set<Seq<char>>>,
    path: Seq<Seq<char>>,
    prefix: Seq<char>,
    fuel: nat,
)
    requires
        g.wf(),
        path_in_tree(g, path),
    ensures
        rows_below(g, path, walk(g, expanded, reopen, path, prefix, fuel).0),
    decreases fuel, 1nat, 0nat,
{
    if path.len() > 0 && opens(expanded, reopen, path) {
        let kids = g.children_of(path.last());
        lemma_child_list_unique(g.parents, g.child_lists, path.last());
        lemma_children_rows(g, expanded, reopen, path, prefix, kids, kids.len(), fuel);
    }
}

proof fn lemma_children_rows(
    g: IssueGraphView,
    expanded: Set<Seq<Seq<char>>>,
    reopen: Option<Set<Seq<char>>>,
    path: Seq<Seq<char>>,
    prefix: Seq<char>,
    kids: Seq<Seq<char>>,
    n: nat,
    fuel: nat,
)
    requires
        g.wf(),
        path_in_tree(g, path),
        kids == g.children_of(path.last()),
        kids.no_duplicates(),
    ensures
        rows_below(g, path, walk_children(g, expanded, reopen, path, prefix, kids, n, fuel).0),
        forall|i: int|
            0 <= i < walk_children(g, expanded, reopen, path, prefix, kids, n, fuel).0.len()
                ==> kids.take(n as int).contains(
                (#[trigger] walk_children(g, expanded, reopen, path, prefix, kids, n, fuel).0[i]).path[path.len() as int],
            ),
    decreases fuel, 0nat, n,
{
    let w = walk_children(g, expanded, reopen, path, prefix, kids, n, fuel).0;
    if n > 0 && n <= kids.len() {
        lemma_children_rows(g, expanded, reopen, path, prefix, kids, (n - 1) as nat, fuel);
        let before = walk_children(g, expanded, reopen, path, prefix, kids, (n - 1) as nat, fuel).0;
        let child = kids[n - 1];
        let last = n == kids.len();
        let child_path = path.push(child);
        assert(kids.contains(child));
        lemma_path_extend(g, path, child);
        assert(child_path.subrange(0, path.len() as int) =~= path);
        let below = if path.contains(child) || fuel == 0 {
            Seq::<TreeRowView>::empty()
        } else {
            walk(g, expanded, reopen, child_path, indent_prefix(prefix, last), (fuel - 1) as nat).0
        };
        if !(path.contains(child) || fuel == 0) {
            lemma_walk_rows(
                g,
                expanded,
                reopen,
                child_path,
                indent_prefix(prefix, last),
                (fuel - 1) as nat,
            );
        }
        let row = w[before.len() as int];
        assert(w == before.push(row) + below);
        assert(row.path == child_path);
        // every row of the new block starts with `path` and then `child`
        assert forall|j: int| 0 <= j < below.len() implies (#[trigger] below[j]).path.len() > path.len()
            + 1 && below[j].path[path.len() as int] == child && below[j].path.subrange(
            0,
            path.len() as int,
        ) == path && path_in_tree(g, below[j].path) by {
            let q = below[j].path;
            assert(q.subrange(0, child_path.len() as int) == child_path);
            assert(q[path.len() as int] == q.subrange(0, child_path.len() as int)[path.len() as int]);
            assert(q.subrange(0, path.len() as int) =~= q.subrange(0, child_path.len() as int).subrange(
                0,
                path.len() as int,
            ));
        }
        assert(!kids.take(n - 1).contains(child)) by {
            if kids.take(n - 1).contains(child) {
                let j = choose|j: int| 0 <= j < n - 1 && #[trigger] kids.take(n - 1)[j] == child;
                assert(kids[j] == kids[n - 1]);
            }
        }
        let block = seq![row] + below;
        assert(distinct_paths(block)) by {
            assert forall|i: int, j: int|
                0 <= i < block.len() && 0 <= j < block.len() && i != j implies #[trigger] block[i].path
                != #[trigger] block[j].path by {
                if i == 0 {
                    assert(block[j] == below[j - 1]);
                } else if j == 0 {
                    assert(block[i] == below[i - 1]);
                } else {
                    assert(block[i] == below[i - 1] && block[j] == below[j - 1]);
                }
            }
        }
        assert forall|i: int, j: int| 0 <= i < before.len() && 0 <= j < block.len() implies before[i].path
            != block[j].path by {
            assert(kids.take(n - 1).contains(before[i].path[path.len() as int]));
            if j == 0 {
                assert(block[j].path[path.len() as int] == child);
            } else {
                assert(block[j] == below[j - 1]);
            }
        }
        lemma_concat_distinct(before, block);
        assert(w =~= before + block);
        assert forall|i: int| 0 <= i < w.len() implies kids.take(n as int).contains(
            (#[trigger] w[i]).path[path.len() as int],
        ) by {
            if i < before.len() {
                assert(w[i] == before[i]);
                let x = before[i].path[path.len() as int];
                let j = choose|j: int| 0 <= j < n - 1 && #[trigger] kids.take(n - 1)[j] == x;
                assert(kids.take(n as int)[j] == x);
            } else {
                assert(w[i] == block[i - before.len()]);
                if i > before.len() {
                    assert(block[i - before.len()] == below[i - before.len() - 1]);
                }
                assert(kids.take(n as int)[n - 1] == child);
            }
        }
        assert forall|i: int| 0 <= i < w.len() implies (#[trigger] w[i]).path.len() > path.len()
            && w[i].path.subrange(0, path.len() as int) == path && path_in_tree(g, w[i].path) by {
            if i < before.len() {
                assert(w[i] == before[i]);
            } else if i > before.len() {
                assert(w[i] == below[i - before.len() - 1]);
            }
        }
    }
}

proof fn lemma_root_block_rows(
    g: IssueGraphView,
    expanded: Set<Seq<Seq<char>>>,
    reopen: Option<Set<Seq<char>>>,
    n: nat,
)
    requires
        g.wf(),
    ensures
        distinct_paths(root_rows(g, expanded, reopen, n).0),
        forall|i: int|
            0 <= i < root_rows(g, expanded, reopen, n).0.len() ==> (#[trigger] root_rows(
                g,
                expanded,
                reopen,
                n,
            ).0[i]).path.len() >= 1 && path_in_tree(g, root_rows(g, expanded, reopen, n).0[i].path)
                && g.roots.take(n as int).contains(root_rows(g, expanded, reopen, n).0[i].path[0]),
    decreases n,
{
    let w = root_rows(g, expanded, reopen, n).0;
    if n > 0 && n <= g.roots.len() {
        lemma_root_block_rows(g, expanded, reopen, (n - 1) as nat);
        let before = root_rows(g, expanded, reopen, (n - 1) as nat).0;
        let id = g.roots[n - 1];
        let root_path = seq![id];
        assert(g.roots.contains(id));
        assert(root_path[0] == id);
        assert(path_in_tree(g, root_path));
        lemma_walk_rows(g, expanded, reopen, root_path, seq![], g.order.len());
        let below = walk(g, expanded, reopen, root_path, seq![], g.order.len()).0;
        let row = crate::tree::root_row(id);
        assert(w == before.push(row) + below);
        assert forall|j: int| 0 <= j < below.len() implies (#[trigger] below[j]).path[0] == id by {
            assert(below[j].path.subrange(0, 1) == root_path);
            assert(below[j].path[0] == below[j].path.subrange(0, 1)[0]);
        }
        assert(!g.roots.take(n - 1).contains(id)) by {
            if g.roots.take(n - 1).contains(id) {
                let j = choose|j: int| 0 <= j < n - 1 && #[trigger] g.roots.take(n - 1)[j] == id;
                assert(g.roots[j] == g.roots[n - 1]);
            }
        }
        let block = seq![row] + below;
        assert(distinct_paths(block)) by {
            assert forall|i: int, j: int|
                0 <= i < block.len() && 0 <= j < block.len() && i != j implies #[trigger] block[i].path
                != #[trigger] block[j].path by {
                if i == 0 {
                    assert(block[j] == below[j - 1]);
                } else if j == 0 {
                    assert(block[i] == below[i - 1]);
                } else {
                    assert(block[i] == below[i - 1] && block[j] == below[j - 1]);
                }
            }
        }
        assert forall|i: int, j: int| 0 <= i < before.len() && 0 <= j < block.len() implies before[i].path
            != block[j].path by {
            assert(g.roots.take(n - 1).contains(before[i].path[0]));
            if j == 0 {
                assert(block[j].path[0] == id);
            } else {
                assert(block[j] == below[j - 1]);
            }
        }
        lemma_concat_distinct(before, block);
        assert(w =~= before + block);
        assert forall|i: int| 0 <= i < w.len() implies (#[trigger] w[i]).path.len() >= 1 && path_in_tree(
            g,
            w[i].path,
        ) && g.roots.take(n as int).contains(w[i].path[0]) by {
            if i < before.len() {
                assert(w[i] == before[i]);
                let x = before[i].path[0];
                let j = choose|j: int| 0 <= j < n - 1 && #[trigger] g.roots.take(n - 1)[j] == x;
                assert(g.roots.take(n as int)[j] == x);
            } else {
                assert(g.roots.take(n as int)[n - 1] == id);
                if i > before.len() {
                    assert(w[i] == below[i - before.len() - 1]);
                }
            }
        }
    }
}

/// The rows of the tree: the create entry first, then rows whose paths are
/// all paths of the tree (from a root down its tree edges), no two alike.
pub proof fn law_tree_rows_are_distinct_tree_paths(
    g: IssueGraphView,
    expanded: Set<Seq<Seq<char>>>,
    reopen: Option<Set<Seq<char>>>,
)
    requires
        g.wf(),
    ensures
        tree_rows_of(g, expanded, reopen).0[0] == create_row(),
        forall|i: int|
            1 <= i < tree_rows_of(g, expanded, reopen).0.len() ==> path_in_tree(
                g,
                (#[trigger] tree_rows_of(g, expanded, reopen).0[i]).path,
            ),
        distinct_paths(tree_rows_of(g, expanded, reopen).0),
{
    lemma_root_block_rows(g, expanded, reopen, g.roots.len());
    let r = root_rows(g, expanded, reopen, g.roots.len()).0;
    let head = seq![create_row()];
    assert forall|i: int, j: int| 0 <= i < head.len() && 0 <= j < r.len() implies head[i].path
        != r[j].path by {
        assert(r[j].path.len() >= 1);
    }
    lemma_concat_distinct(head, r);
    assert forall|i: int| 1 <= i < tree_rows_of(g, expanded, reopen).0.len() implies path_in_tree(
        g,
        (#[trigger] tree_rows_of(g, expanded, reopen).0[i]).path,
    ) by {
        assert(tree_rows_of(g, expanded, reopen).0[i] == r[i - 1]);
    }
}

/// After a refresh the create entry is the first row, every other row shows a
/// path of the new tree, and no two rows show the same path.
pub proof fn law_refresh_rows_are_distinct_tree_paths(s: AppView, g: IssueGraphView)
    requires
        g.wf(),
    ensures
        refreshed(s, g).rows.len() >= 1,
        refreshed(s, g).rows[0] == create_row(),
        forall|i: int|
            1 <= i < refreshed(s, g).rows.len() ==> path_in_tree(
                g,
                (#[trigger] refreshed(s, g).rows[i]).path,
            ),
        distinct_paths(refreshed(s, g).rows),
{
    let kept = kept_paths(g, s.expanded);
    let reopen = Some(moved_ids(g, s.expanded));
    law_tree_rows_are_distinct_tree_paths(g, kept, reopen);
}

/// `Tab` in the tree flips the fold of the selected row when it has children:
/// its path is expanded afterwards exactly when it was not before, no other
/// path changes, and the rows are those of the tree with the new folds. On a
/// row without children `Tab` changes nothing.
pub proof fn law_tab_flips_fold(s: AppView, e: bool)
    requires
        s.mode is Normal,
        s.history.len() == 0,
        !s.chord_pending,
    ensures
        selected_row_has_children(s) ==> ({
            let p = s.rows[s.cursor as int].path;
            let t = key_step(s, plain(KeyCode::Tab), e).0;
            &&& t.expanded.contains(p) == !s.expanded.contains(p)
            &&& forall|q: Seq<Seq<char>>| q != p ==> t.expanded.contains(q) == s.expanded.contains(q)
            &&& t.rows == tree_rows_of(s.graph, t.expanded, None).0
            &&& t.graph == s.graph && t.mode == s.mode && t.history == s.history
        }),
        !selected_row_has_children(s) ==> key_step(s, plain(KeyCode::Tab), e).0 == (AppView {
            status: None,
            ..s
        }),
        key_step(s, plain(KeyCode::Tab), e).1 == ActionView::NoOp,
{
}

/// In the priority step of the add-issue flow, `j`/Down moves the choice one
/// down the list and `k`/Up one up, stopping at the ends of the five
/// priorities; nothing else of the flow changes, and down then up comes back.
pub proof fn law_add_issue_priority_moves(s: AppView, e1: bool, e2: bool)
    requires
        s.wf(),
        s.mode matches ModeView::AddIssue(f) && !f.confirming_cancel && f.step
            == AddIssueStep::Priority,
        s.status is None,
    ensures
        ({
            let f = s.mode->AddIssue_0;
            let i = f.priority_index;
            let down = AppView {
                mode: ModeView::AddIssue(
                    AddIssueFlowView {
                        priority_index: if i < 4 {
                            (i + 1) as usize
                        } else {
                            4
                        },
                        ..f
                    },
                ),
                ..s
            };
            let up = AppView {
                mode: ModeView::AddIssue(
                    AddIssueFlowView {
                        priority_index: if i > 0 {
                            (i - 1) as usize
                        } else {
                            0
                        },
                        ..f
                    },
                ),
                ..s
            };
            &&& key_step(s, plain(KeyCode::Down), e1) == (down, ActionView::NoOp)
            &&& key_step(s, plain(KeyCode::Char('j')), e1) == (down, ActionView::NoOp)
            &&& key_step(s, plain(KeyCode::Up), e1) == (up, ActionView::NoOp)
            &&& key_step(s, plain(KeyCode::Char('k')), e1) == (up, ActionView::NoOp)
            &&& i < 4 ==> key_step(key_step(s, plain(KeyCode::Down), e1).0, plain(KeyCode::Up), e2).0
                == s
        }),
{
}

/// In the type step of the add-issue flow, `j`/Down moves the choice one down
/// the list and `k`/Up one up, stopping at the ends of the six types; nothing
/// else of the flow changes.
pub proof fn law_add_issue_type_moves(s: AppView, e: bool)
    requires
        s.wf(),
        s.mode matches ModeView::AddIssue(f) && !f.confirming_cancel && f.step
            == AddIssueStep::IssueType,
        s.status is None,
    ensures
        ({
            let f = s.mode->AddIssue_0;
            let i = f.issue_type_index;
            &&& key_step(s, plain(KeyCode::Down), e) == (
            AppView {
                mode: ModeView::AddIssue(
                    AddIssueFlowView {
                        issue_type_index: if i < 5 {
                            (i + 1) as usize
                        } else {
                            5
                        },
                        ..f
                    },
                ),
                ..s
            },
            ActionView::NoOp,
            )
            &&& key_step(s, plain(KeyCode::Up), e) == (
            AppView {
                mode: ModeView::AddIssue(
                    AddIssueFlowView {
                        issue_type_index: if i > 0 {
                            (i - 1) as usize
                        } else {
                            0
                        },
                        ..f
                    },
                ),
                ..s
            },
            ActionView::NoOp,
            )
        }),
{
}

/// How `unicode-width` measures text at spaces: empty text takes no columns,
/// and a space between two texts adds one column to their widths (a space
/// closes any sequence that would join characters into one glyph).
pub open spec fn widths_add_at_spaces() -> bool {
    &&& text_width(seq![]) == 0
    &&& forall|a: Seq<char>, b: Seq<char>|
        text_width(a) + 1 + text_width(b) <= usize::MAX ==> #[trigger] text_width(
            a + seq![' '] + b,
        ) == text_width(a) + 1 + text_width(b)
}

proof fn lemma_spaces_width(n: nat)
    requires
        widths_add_at_spaces(),
        n <= usize::MAX,
    ensures
        text_width(spaces(n)) == n,
    decreases n,
{
    if n == 0 {
        assert(spaces(0) =~= seq![]);
    } else {
        lemma_spaces_width((n - 1) as nat);
        let e: Seq<char> = seq![];
        assert(spaces(n) =~= e + seq![' '] + spaces((n - 1) as nat));
        assert(text_width(e + seq![' '] + spaces((n - 1) as nat)) == text_width(e) + 1
            + text_width(spaces((n - 1) as nat)));
    }
}

proof fn lemma_padding_width(t: Seq<char>, n: nat)
    requires
        widths_add_at_spaces(),
        text_width(t) + n <= usize::MAX,
    ensures
        text_width(t + spaces(n)) == text_width(t) + n,
{
    if n == 0 {
        assert(t + spaces(0) =~= t);
    } else {
        lemma_spaces_width((n - 1) as nat);
        assert(t + spaces(n) =~= t + seq![' '] + spaces((n - 1) as nat));
        assert(text_width(t + seq![' '] + spaces((n - 1) as nat)) == text_width(t) + 1
            + text_width(spaces((n - 1) as nat)));
    }
}

/// A cell padded to `w` columns is exactly `w` columns wide whenever its text,
/// cut to `w`, fits: the spaces fill what the text's display width leaves,
/// wide characters counted as two. Text that still overflows is left as cut.
pub proof fn law_padded_cell_is_exactly_as_wide(s: Seq<char>, w: nat)
    requires
        widths_add_at_spaces(),
        w <= usize::MAX,
    ensures
        text_width(truncated(s, w)) <= w ==> text_width(padded(s, w)) == w,
        text_width(truncated(s, w)) > w ==> padded(s, w) == truncated(s, w),
{
    let t = truncated(s, w);
    if text_width(t) <= w {
        lemma_padding_width(t, (w - text_width(t)) as nat);
    } else {
        assert(t + spaces(0) =~= t);
    }
}

/// Every word of every line of `ps` fits in `w` columns.
pub open spec fn words_fit(ps: Seq<Seq<char>>, w: nat) -> bool {
    forall|i: int, j: int|
        0 <= i < ps.len() && 0 <= j < words_of(ps[i]).len() ==> text_width(
            #[trigger] words_of(ps[i])[j],
        ) <= w
}

proof fn lemma_wrap_words_fit(words: Seq<Seq<char>>, w: nat)
    requires
        widths_add_at_spaces(),
        1 <= w <= usize::MAX,
        forall|j: int| 0 <= j < words.len() ==> text_width(#[trigger] words[j]) <= w,
    ensures
        forall|k: int|
            0 <= k < wrap_words(words, w).0.len() ==> text_width(#[trigger] wrap_words(words, w).0[k])
                <= w,
        text_width(wrap_words(words, w).1) <= w,
    decreases words.len(),
{
    if words.len() > 0 {
        let rest = words.drop_last();
        assert forall|j: int| 0 <= j < rest.len() implies text_width(#[trigger] rest[j]) <= w by {
            assert(rest[j] == words[j]);
        }
        lemma_wrap_words_fit(rest, w);
        let prev = wrap_words(rest, w);
        let line = prev.1;
        let word = words.last();
        assert(text_width(word) <= w);
        if joined_width(line, word) <= w {
            if line.len() > 0 {
                assert(text_width(line + seq![' '] + word) == text_width(line) + 1 + text_width(
                    word,
                ));
            }
        } else {
            let done = if line.len() > 0 {
                prev.0.push(line)
            } else {
                prev.0
            };
            assert(split_long(word, w) == (Seq::<Seq<char>>::empty(), word));
            let r = wrap_words(words, w);
            assert(r.0 =~= done);
            assert forall|k: int| 0 <= k < r.0.len() implies text_width(#[trigger] r.0[k]) <= w by {
                if k < prev.0.len() {
                    assert(r.0[k] == prev.0[k]);
                }
            }
        }
    } else {
        assert(wrap_words(words, w).1 =~= seq![]);
    }
}

proof fn lemma_paragraphs_fit(ps: Seq<Seq<char>>, w: nat)
    requires
        widths_add_at_spaces(),
        1 <= w <= usize::MAX,
        words_fit(ps, w),
    ensures
        forall|k: int|
            0 <= k < wrapped_paragraphs(ps, w).len() ==> text_width(
                #[trigger] wrapped_paragraphs(ps, w)[k],
            ) <= w,
    decreases ps.len(),
{
    if ps.len() > 0 {
        let rest = ps.drop_last();
        assert forall|i: int, j: int|
            0 <= i < rest.len() && 0 <= j < words_of(rest[i]).len() implies text_width(
            #[trigger] words_of(rest[i])[j],
        ) <= w by {
            assert(rest[i] == ps[i]);
        }
        lemma_paragraphs_fit(rest, w);
        let p = ps.last();
        let words = words_of(p);
        assert forall|j: int| 0 <= j < words.len() implies text_width(#[trigger] words[j]) <= w by {
            assert(ps[ps.len() - 1] == p);
            assert(text_width(words_of(ps[ps.len() - 1])[j]) <= w);
        }
        lemma_wrap_words_fit(words, w);
        let a = wrapped_paragraphs(rest, w);
        let b = wrapped_paragraph(p, w);
        assert forall|k: int| 0 <= k < b.len() implies text_width(#[trigger] b[k]) <= w by {
            if !is_blank(p) {
                let r = wrap_words(words, w);
                if k < r.0.len() {
                    assert(b[k] == r.0[k]);
                }
            }
        }
        let all = wrapped_paragraphs(ps, w);
        assert(all == a + b);
        assert forall|k: int| 0 <= k < all.len() implies text_width(#[trigger] all[k]) <= w by {
            if k < a.len() {
                assert(all[k] == a[k]);
            } else {
                assert(all[k] == b[k - a.len()]);
            }
        }
    }
}

/// Wrapping to `w` columns (at least one) never makes a line wider than `w`
/// when each word fits: words joined on a line count the space between them,
/// and a word that does not fit beside the others starts a new line.
pub proof fn law_wrapped_lines_fit(value: Seq<char>, w: nat)
    requires
        widths_add_at_spaces(),
        1 <= w <= usize::MAX,
        words_fit(lines_of(value), w),
    ensures
        forall|k: int| 0 <= k < wrapped(value, w).len() ==> text_width(#[trigger] wrapped(value, w)[k]) <= w,
{
    if value.len() > 0 {
        lemma_paragraphs_fit(lines_of(value), w);
    }
}

/// Whether the last issue of `p` is the last child of the issue before it.
pub open spec fn is_last_child(g: IssueGraphView, p: Seq<Seq<char>>) -> bool {
    p.len() >= 2 && p.last() == g.children_of(p[p.len() - 2]).last()
}

/// The indentation drawn below the row of `p` for each level under the root:
/// a rule (`│`) where the branch of that level goes on to a later sibling,
/// blank where it ended with the last child.
pub open spec fn indentation_below(g: IssueGraphView, p: Seq<Seq<char>>) -> Seq<char>
    decreases p.len(),
{
    if p.len() <= 1 {
        seq![]
    } else {
        indentation_below(g, p.drop_last()) + if is_last_child(g, p) {
            "    "@
        } else {
            "│   "@
        }
    }
}

/// The prefix drawn before the issue of `p`: nothing for a root; for a child,
/// its parent's indentation and then `├── `, or `└── ` for the last child of
/// its parent.
pub open spec fn expected_prefix(g: IssueGraphView, p: Seq<Seq<char>>) -> Seq<char> {
    if p.len() <= 1 {
        seq![]
    } else {
        indentation_below(g, p.drop_last()) + if is_last_child(g, p) {
            "└── "@
        } else {
            "├── "@
        }
    }
}

proof fn lemma_walk_prefixes(
    g: IssueGraphView,
    expanded: Set<Seq<Seq<char>>>,
    reopen: Option<Set<Seq<char>>>,
    path: Seq<Seq<char>>,
    prefix: Seq<char>,
    fuel: nat,
)
    requires
        g.wf(),
        path.len() >= 1,
        prefix == indentation_below(g, path),
    ensures
        forall|i: int|
            0 <= i < walk(g, expanded, reopen, path, prefix, fuel).0.len() ==> (#[trigger] walk(
                g,
                expanded,
                reopen,
                path,
                prefix,
                fuel,
            ).0[i]).prefix == expected_prefix(g, walk(g, expanded, reopen, path, prefix, fuel).0[i].path),
    decreases fuel, 1nat, 0nat,
{
    if path.len() > 0 && opens(expanded, reopen, path) {
        let kids = g.children_of(path.last());
        lemma_child_list_unique(g.parents, g.child_lists, path.last());
        lemma_children_prefixes(g, expanded, reopen, path, prefix, kids, kids.len(), fuel);
        let w = walk(g, expanded, reopen, path, prefix, fuel).0;
        let c = walk_children(g, expanded, reopen, path, prefix, kids, kids.len(), fuel).0;
        assert(w == c);
        assert forall|i: int| 0 <= i < w.len() implies (#[trigger] w[i]).prefix == expected_prefix(
            g,
            w[i].path,
        ) by {
            assert(w[i] == c[i]);
        }
    }
}

proof fn lemma_children_prefixes(
    g: IssueGraphView,
    expanded: Set<Seq<Seq<char>>>,
    reopen: Option<Set<Seq<char>>>,
    path: Seq<Seq<char>>,
    prefix: Seq<char>,
    kids: Seq<Seq<char>>,
    n: nat,
    fuel: nat,
)
    requires
        g.wf(),
        path.len() >= 1,
        prefix == indentation_below(g, path),
        kids == g.children_of(path.last()),
        kids.no_duplicates(),
    ensures
        forall|i: int|
            0 <= i < walk_children(g, expanded, reopen, path, prefix, kids, n, fuel).0.len()
                ==> (#[trigger] walk_children(g, expanded, reopen, path, prefix, kids, n, fuel).0[i]).prefix
                == expected_prefix(
                g,
                walk_children(g, expanded, reopen, path, prefix, kids, n, fuel).0[i].path,
            ),
    decreases fuel, 0nat, n,
{
    let w = walk_children(g, expanded, reopen, path, prefix, kids, n, fuel).0;
    if n > 0 && n <= kids.len() {
        lemma_children_prefixes(g, expanded, reopen, path, prefix, kids, (n - 1) as nat, fuel);
        let before = walk_children(g, expanded, reopen, path, prefix, kids, (n - 1) as nat, fuel).0;
        let child = kids[n - 1];
        let last = n == kids.len();
        let child_path = path.push(child);
        assert(child_path.drop_last() =~= path);
        assert(child_path[child_path.len() - 2] == path.last());
        assert(is_last_child(g, child_path) == last) by {
            if !last {
                assert(kids[n - 1] != kids[kids.len() - 1]);
            }
        }
        assert(indentation_below(g, child_path) == indent_prefix(prefix, last));
        assert(expected_prefix(g, child_path) == crate::tree::branch_prefix(prefix, last));
        let below = if path.contains(child) || fuel == 0 {
            Seq::<TreeRowView>::empty()
        } else {
            walk(g, expanded, reopen, child_path, indent_prefix(prefix, last), (fuel - 1) as nat).0
        };
        if !(path.contains(child) || fuel == 0) {
            lemma_walk_prefixes(
                g,
                expanded,
                reopen,
                child_path,
                indent_prefix(prefix, last),
                (fuel - 1) as nat,
            );
        }
        let row = w[before.len() as int];
        assert(w == before.push(row) + below);
        assert(row.path == child_path);
        assert forall|i: int| 0 <= i < w.len() implies (#[trigger] w[i]).prefix == expected_prefix(
            g,
            w[i].path,
        ) by {
            if i < before.len() {
                assert(w[i] == before[i]);
            } else if i > before.len() {
                assert(w[i] == below[i - before.len() - 1]);
            }
        }
    }
}

proof fn lemma_root_block_prefixes(
    g: IssueGraphView,
    expanded: Set<Seq<Seq<char>>>,
    reopen: Option<Set<Seq<char>>>,
    n: nat,
)
    requires
        g.wf(),
    ensures
        forall|i: int|
            0 <= i < root_rows(g, expanded, reopen, n).0.len() ==> (#[trigger] root_rows(
                g,
                expanded,
                reopen,
                n,
            ).0[i]).prefix == expected_prefix(g, root_rows(g, expanded, reopen, n).0[i].path),
    decreases n,
{
    let w = root_rows(g, expanded, reopen, n).0;
    if n > 0 && n <= g.roots.len() {
        lemma_root_block_prefixes(g, expanded, reopen, (n - 1) as nat);
        let before = root_rows(g, expanded, reopen, (n - 1) as nat).0;
        let id = g.roots[n - 1];
        let root_path = seq![id];
        lemma_walk_prefixes(g, expanded, reopen, root_path, seq![], g.order.len());
        let below = walk(g, expanded, reopen, root_path, seq![], g.order.len()).0;
        let row = crate::tree::root_row(id);
        assert(w == before.push(row) + below);
        assert forall|i: int| 0 <= i < w.len() implies (#[trigger] w[i]).prefix == expected_prefix(
            g,
            w[i].path,
        ) by {
            if i < before.len() {
                assert(w[i] == before[i]);
            } else if i > before.len() {
                assert(w[i] == below[i - before.len() - 1]);
            }
        }
    }
}

/// Each row of the tree is drawn with the branch glyphs of its place in the
/// graph: a root with none; a child with its parent's indentation and then
/// `├── ` when later siblings follow it, or `└── ` when it is the last child
/// of its parent. The indentation repeats, level by level, `│   ` where a
/// branch goes on below and four spaces where it has ended.
pub proof fn law_tree_rows_draw_their_branches(
    g: IssueGraphView,
    expanded: Set<Seq<Seq<char>>>,
    reopen: Option<Set<Seq<char>>>,
)
    requires
        g.wf(),
    ensures
        forall|i: int|
            0 <= i < tree_rows_of(g, expanded, reopen).0.len() ==> (#[trigger] tree_rows_of(
                g,
                expanded,
                reopen,
            ).0[i]).prefix == expected_prefix(g, tree_rows_of(g, expanded, reopen).0[i].path),
        forall|i: int|
            0 <= i < tree_rows_of(g, expanded, reopen).0.len() && (#[trigger] tree_rows_of(
                g,
                expanded,
                reopen,
            ).0[i]).path.len() >= 2 && !is_last_child(g, tree_rows_of(g, expanded, reopen).0[i].path)
                ==> tree_rows_of(g, expanded, reopen).0[i].prefix == indentation_below(
                g,
                tree_rows_of(g, expanded, reopen).0[i].path.drop_last(),
            ) + "├── "@,
{
    lemma_root_block_prefixes(g, expanded, reopen, g.roots.len());
    let r = root_rows(g, expanded, reopen, g.roots.len()).0;
    let all = tree_rows_of(g, expanded, reopen).0;
    assert forall|i: int| 0 <= i < all.len() implies (#[trigger] all[i]).prefix == expected_prefix(
        g,
        all[i].path,
    ) by {
        if i > 0 {
            assert(all[i] == r[i - 1]);
        }
    }
}

} // verus!
