//! The rows of the tree view: a depth-first walk from the roots through the
//! expanded paths, drawn with box characters, that stops at cycles.
use vstd::prelude::*;
use vstd::string::*;
use crate::model::{IssueGraph, IssueGraphView, find_string, clone_strings, string_views};

verus! {

/// One line of the tree. The first row of every tree is the synthetic
/// "create" entry (an empty path); Enter on it creates a top-level issue.
#[derive(Clone, Debug, PartialEq, Eq)]
pub struct TreeRow {
    pub issue_id: String,
    pub path: Vec<String>,
    pub prefix: String,
    pub cycle: bool,
}

pub struct TreeRowView {
    pub issue_id: Seq<char>,
    pub path: Seq<Seq<char>>,
    pub prefix: Seq<char>,
    pub cycle: bool,
}

impl View for TreeRow {
    type V = TreeRowView;

    open spec fn view(&self) -> TreeRowView {
        TreeRowView {
            issue_id: self.issue_id@,
            path: string_views(self.path@),
            prefix: self.prefix@,
            cycle: self.cycle,
        }
    }
}

pub open spec fn row_views(rows: Seq<TreeRow>) -> Seq<TreeRowView> {
    rows.map_values(|r: TreeRow| r@)
}

pub open spec fn path_views(paths: Seq<Vec<String>>) -> Seq<Seq<Seq<char>>> {
    paths.map_values(|p: Vec<String>| string_views(p@))
}

/// The synthetic first row.
pub open spec fn create_row() -> TreeRowView {
    TreeRowView { issue_id: seq![], path: seq![], prefix: seq![], cycle: false }
}

impl TreeRow {
    /// The synthetic first row of the tree; Enter on it creates a top-level
    /// issue.
    pub fn create_entry() -> (r: TreeRow)
        ensures
            r@ == create_row(),
    {
        let r = TreeRow {
            issue_id: String::new(),
            path: Vec::new(),
            prefix: String::new(),
            cycle: false,
        };
        assert(string_views(r.path@) =~= seq![]);
        r
    }

    pub fn is_create_entry(&self) -> (r: bool)
        ensures
            r == (self@.path.len() == 0),
    {
        self.path.len() == 0
    }

    /// A copy of this row.
    pub fn duplicate(&self) -> (r: TreeRow)
        ensures
            r@ == self@,
    {
        TreeRow {
            issue_id: self.issue_id.clone(),
            path: clone_strings(&self.path),
            prefix: self.prefix.clone(),
            cycle: self.cycle,
        }
    }
}

/// The prefix of a child row: the parent's indentation and a branch.
pub open spec fn branch_prefix(prefix: Seq<char>, last: bool) -> Seq<char> {
    prefix + if last {
        "└── "@
    } else {
        "├── "@
    }
}

/// The indentation under a child row for its own children.
pub open spec fn indent_prefix(prefix: Seq<char>, last: bool) -> Seq<char> {
    prefix + if last {
        "    "@
    } else {
        "│   "@
    }
}

/// Whether the walk descends below `path`: the path is expanded, or (when
/// restoring expansions that a refresh moved) its issue is one to reopen.
pub open spec fn opens(
    expanded: Set<Seq<Seq<char>>>,
    reopen: Option<Set<Seq<char>>>,
    path: Seq<Seq<char>>,
) -> bool {
    expanded.contains(path) || (reopen matches Some(ids) && ids.contains(path.last()))
}

/// The rows below `path` (not the row of `path` itself) and the paths the
/// walk found open. `fuel` bounds the depth; a well-formed graph never needs
/// more than its number of listed issues, since a path never repeats an issue.
pub open spec fn walk(
    g: IssueGraphView,
    expanded: Set<Seq<Seq<char>>>,
    reopen: Option<Set<Seq<char>>>,
    path: Seq<Seq<char>>,
    prefix: Seq<char>,
    fuel: nat,
) -> (Seq<TreeRowView>, Seq<Seq<Seq<char>>>)
    decreases fuel, 1nat, 0nat,
{
    if path.len() == 0 || !opens(expanded, reopen, path) {
        (seq![], seq![])
    } else {
        let kids = g.children_of(path.last());
        let r = walk_children(g, expanded, reopen, path, prefix, kids, kids.len(), fuel);
        (r.0, seq![path] + r.1)
    }
}

/// The rows of the first `n` children of `path` and of what lies below them.
pub open spec fn walk_children(
    g: IssueGraphView,
    expanded: Set<Seq<Seq<char>>>,
    reopen: Option<Set<Seq<char>>>,
    path: Seq<Seq<char>>,
    prefix: Seq<char>,
    kids: Seq<Seq<char>>,
    n: nat,
    fuel: nat,
) -> (Seq<TreeRowView>, Seq<Seq<Seq<char>>>)
    decreases fuel, 0nat, n,
{
    if n == 0 || n > kids.len() {
        (seq![], seq![])
    } else {
        let before = walk_children(g, expanded, reopen, path, prefix, kids, (n - 1) as nat, fuel);
        let child = kids[n - 1];
        let last = n == kids.len();
        let cycle = path.contains(child);
        let child_path = path.push(child);
        let row = TreeRowView {
            issue_id: child,
            path: child_path,
            prefix: branch_prefix(prefix, last),
            cycle,
        };
        let below = if cycle || fuel == 0 {
            (Seq::<TreeRowView>::empty(), Seq::<Seq<Seq<char>>>::empty())
        } else {
            walk(g, expanded, reopen, child_path, indent_prefix(prefix, last), (fuel - 1) as nat)
        };
        (before.0.push(row) + below.0, before.1 + below.1)
    }
}

/// The row of a root.
pub open spec fn root_row(id: Seq<char>) -> TreeRowView {
    TreeRowView { issue_id: id, path: seq![id], prefix: seq![], cycle: false }
}

/// The rows of the first `n` roots with everything open below them.
pub open spec fn root_rows(
    g: IssueGraphView,
    expanded: Set<Seq<Seq<char>>>,
    reopen: Option<Set<Seq<char>>>,
    n: nat,
) -> (Seq<TreeRowView>, Seq<Seq<Seq<char>>>)
    decreases n,
{
    if n == 0 || n > g.roots.len() {
        (seq![], seq![])
    } else {
        let before = root_rows(g, expanded, reopen, (n - 1) as nat);
        let id = g.roots[n - 1];
        let below = walk(g, expanded, reopen, seq![id], seq![], g.order.len());
        (before.0.push(root_row(id)) + below.0, before.1 + below.1)
    }
}

/// The whole tree: the create entry, then each root and what is open below
/// it; with the paths found open.
pub open spec fn tree_rows_of(
    g: IssueGraphView,
    expanded: Set<Seq<Seq<char>>>,
    reopen: Option<Set<Seq<char>>>,
) -> (Seq<TreeRowView>, Seq<Seq<Seq<char>>>) {
    let r = root_rows(g, expanded, reopen, g.roots.len());
    (seq![create_row()] + r.0, r.1)
}

/// Whether two paths name the same issues.
pub fn paths_equal(a: &Vec<String>, b: &Vec<String>) -> (r: bool)
    ensures
        r == (string_views(a@) == string_views(b@)),
{
    if a.len() != b.len() {
        proof {
            assert(string_views(a@).len() != string_views(b@).len());
        }
        return false;
    }
    let mut i: usize = 0;
    while i < a.len()
        invariant
            a@.len() == b@.len(),
            i <= a@.len(),
            forall|k: int| 0 <= k < i ==> (#[trigger] a@[k])@ == b@[k]@,
        decreases a@.len() - i,
    {
        if a[i] != b[i] {
            proof {
                assert(string_views(a@)[i as int] != string_views(b@)[i as int]);
            }
            return false;
        }
        i = i + 1;
    }
    proof {
        assert(string_views(a@) =~= string_views(b@));
    }
    true
}

/// The position of `path` in `paths`.
pub fn find_path(paths: &Vec<Vec<String>>, path: &Vec<String>) -> (r: Option<usize>)
    ensures
        r matches Some(k) ==> k < paths@.len() && path_views(paths@)[k as int] == string_views(path@),
        r is None <==> !path_views(paths@).contains(string_views(path@)),
{
    let mut k: usize = 0;
    while k < paths.len()
        invariant
            k <= paths@.len(),
            forall|m: int| 0 <= m < k ==> path_views(paths@)[m] != string_views(path@),
        decreases paths@.len() - k,
    {
        if paths_equal(&paths[k], path) {
            proof {
                assert(path_views(paths@)[k as int] == string_views(paths@[k as int]@));
                assert(path_views(paths@).contains(string_views(path@)));
            }
            return Some(k);
        }
        k = k + 1;
    }
    None
}

/// Whether `id` occurs in `path`.
fn path_contains(path: &Vec<String>, id: &String) -> (r: bool)
    ensures
        r == string_views(path@).contains(id@),
{
    find_string(path, id.as_str()).is_some()
}

/// `path` extended by `id`.
fn extended(path: &Vec<String>, id: &String) -> (r: Vec<String>)
    ensures
        string_views(r@) == string_views(path@).push(id@),
{
    let mut r = clone_strings(path);
    r.push(id.clone());
    proof {
        assert(string_views(r@) =~= string_views(path@).push(id@));
    }
    r
}

/// Appends to `rows` the rows below `path`, and to `restored` the paths found
/// open.
fn walk_rows(
    graph: &IssueGraph,
    expanded: &Vec<Vec<String>>,
    reopen: Option<&Vec<String>>,
    path: &Vec<String>,
    prefix: &str,
    rows: &mut Vec<TreeRow>,
    restored: &mut Vec<Vec<String>>,
    fuel: usize,
)
    ensures
        ({
            let w = walk(
                graph@,
                path_views(expanded@).to_set(),
                match reopen {
                    Some(ids) => Some(string_views(ids@).to_set()),
                    None => None,
                },
                string_views(path@),
                prefix@,
                fuel as nat,
            );
            &&& row_views(final(rows)@) == row_views(old(rows)@) + w.0
            &&& path_views(final(restored)@) == path_views(old(restored)@) + w.1
        }),
    decreases fuel,
{
    let ghost ev = path_views(expanded@).to_set();
    let ghost rv = match reopen {
        Some(ids) => Some(string_views(ids@).to_set()),
        None => None,
    };
    let ghost pv = string_views(path@);
    if path.len() == 0 {
        assert(row_views(rows@) =~= row_views(old(rows)@) + seq![]);
        assert(path_views(restored@) =~= path_views(old(restored)@) + seq![]);
        return;
    }
    let id = &path[path.len() - 1];
    proof {
        assert(pv.last() == id@);
    }
    let is_open = find_path(expanded, path).is_some() || match reopen {
        Some(ids) => find_string(ids, id.as_str()).is_some(),
        None => false,
    };
    if !is_open {
        assert(row_views(rows@) =~= row_views(old(rows)@) + seq![]);
        assert(path_views(restored@) =~= path_views(old(restored)@) + seq![]);
        return;
    }
    let ghost restored0 = path_views(restored@);
    restored.push(clone_strings(path));
    proof {
        assert(path_views(restored@) =~= restored0.push(pv));
    }
    let children = graph.tree_children(id.as_str());
    let ghost kids = string_views(children@);
    let count = children.len();
    let ghost rows0 = row_views(rows@);
    let ghost restored1 = path_views(restored@);
    let mut index: usize = 0;
    proof {
        assert(rows0 =~= rows0 + walk_children(graph@, ev, rv, pv, prefix@, kids, 0, fuel as nat).0);
        assert(restored1 =~= restored1 + walk_children(graph@, ev, rv, pv, prefix@, kids, 0, fuel as nat).1);
    }
    while index < count
        invariant
            count == children@.len(),
            kids == string_views(children@),
            kids == graph@.children_of(pv.last()),
            ev == path_views(expanded@).to_set(),
            rv == match reopen {
                Some(ids) => Some(string_views(ids@).to_set()),
                None => None,
            },
            pv == string_views(path@),
            pv.len() > 0,
            index <= count,
            row_views(rows@) == rows0 + walk_children(
                graph@,
                ev,
                rv,
                pv,
                prefix@,
                kids,
                index as nat,
                fuel as nat,
            ).0,
            path_views(restored@) == restored1 + walk_children(
                graph@,
                ev,
                rv,
                pv,
                prefix@,
                kids,
                index as nat,
                fuel as nat,
            ).1,
        decreases count - index,
    {
        let child = &children[index];
        let last = index + 1 == count;
        let cycle = path_contains(path, child);
        let child_path = extended(path, child);
        let mut branch = String::from_str(prefix);
        branch.append(if last { "└── " } else { "├── " });
        let row = TreeRow {
            issue_id: child.clone(),
            path: clone_strings(&child_path),
            prefix: branch,
            cycle,
        };
        let ghost before_rows = row_views(rows@);
        let ghost before_restored = path_views(restored@);
        let ghost prev = walk_children(graph@, ev, rv, pv, prefix@, kids, index as nat, fuel as nat);
        proof {
            assert(kids[index as int] == child@);
            assert(row@ == TreeRowView {
                issue_id: kids[index as int],
                path: pv.push(kids[index as int]),
                prefix: branch_prefix(prefix@, last),
                cycle,
            });
        }
        rows.push(row);
        proof {
            assert(row_views(rows@) =~= before_rows.push(row@));
        }
        if !cycle && fuel > 0 {
            let mut indent = String::from_str(prefix);
            indent.append(if last { "    " } else { "│   " });
            walk_rows(graph, expanded, reopen, &child_path, indent.as_str(), rows, restored, fuel - 1);
        }
        proof {
            let next = walk_children(graph@, ev, rv, pv, prefix@, kids, (index + 1) as nat, fuel as nat);
            assert(next.0 =~= prev.0.push(row@) + (if cycle || fuel == 0 {
                Seq::<TreeRowView>::empty()
            } else {
                walk(graph@, ev, rv, pv.push(child@), indent_prefix(prefix@, last), (fuel - 1) as nat).0
            }));
            assert(row_views(rows@) =~= rows0 + next.0);
            assert(path_views(restored@) =~= restored1 + next.1);
        }
        index = index + 1;
    }
    proof {
        let w = walk(graph@, ev, rv, pv, prefix@, fuel as nat);
        assert(w.1 =~= seq![pv] + walk_children(graph@, ev, rv, pv, prefix@, kids, kids.len(), fuel as nat).1);
        assert(path_views(restored@) =~= path_views(old(restored)@) + w.1);
    }
}

/// The rows of the whole tree and the paths found open; `reopen` lists the
/// issues whose expansion is restored wherever they appear.
pub fn build_tree_rows(
    graph: &IssueGraph,
    expanded: &Vec<Vec<String>>,
    reopen: Option<&Vec<String>>,
) -> (r: (Vec<TreeRow>, Vec<Vec<String>>))
    ensures
        ({
            let t = tree_rows_of(
                graph@,
                path_views(expanded@).to_set(),
                match reopen {
                    Some(ids) => Some(string_views(ids@).to_set()),
                    None => None,
                },
            );
            &&& row_views(r.0@) == t.0
            &&& path_views(r.1@) == t.1
        }),
{
    let ghost ev = path_views(expanded@).to_set();
    let ghost rv = match reopen {
        Some(ids) => Some(string_views(ids@).to_set()),
        None => None,
    };
    let mut rows: Vec<TreeRow> = Vec::new();
    rows.push(TreeRow::create_entry());
    let mut restored: Vec<Vec<String>> = Vec::new();
    let roots = graph.roots();
    let fuel = graph.len();
    let mut k: usize = 0;
    proof {
        assert(row_views(rows@) =~= seq![create_row()] + root_rows(graph@, ev, rv, 0).0);
        assert(path_views(restored@) =~= root_rows(graph@, ev, rv, 0).1);
    }
    while k < roots.len()
        invariant
            string_views(roots@) == graph@.roots,
            fuel == graph@.order.len(),
            ev == path_views(expanded@).to_set(),
            rv == match reopen {
                Some(ids) => Some(string_views(ids@).to_set()),
                None => None,
            },
            k <= roots@.len(),
            row_views(rows@) == seq![create_row()] + root_rows(graph@, ev, rv, k as nat).0,
            path_views(restored@) == root_rows(graph@, ev, rv, k as nat).1,
        decreases roots@.len() - k,
    {
        let root = &roots[k];
        let mut path: Vec<String> = Vec::new();
        path.push(root.clone());
        let ghost prev = root_rows(graph@, ev, rv, k as nat);
        let ghost before_rows = row_views(rows@);
        let row = TreeRow {
            issue_id: root.clone(),
            path: clone_strings(&path),
            prefix: String::new(),
            cycle: false,
        };
        proof {
            assert(string_views(path@) =~= seq![root@]);
            assert(graph@.roots[k as int] == root@);
            assert(row@ == root_row(root@));
        }
        rows.push(row);
        proof {
            assert(row_views(rows@) =~= before_rows.push(row@));
        }
        walk_rows(graph, expanded, reopen, &path, "", &mut rows, &mut restored, fuel);
        proof {
            let next = root_rows(graph@, ev, rv, (k + 1) as nat);
            assert(""@ =~= Seq::<char>::empty()) by {
                reveal_strlit("");
            }
            assert(next.0 =~= prev.0.push(root_row(root@)) + walk(graph@, ev, rv, seq![root@], ""@, fuel as nat).0);
            assert(row_views(rows@) =~= seq![create_row()] + next.0);
            assert(path_views(restored@) =~= next.1);
        }
        k = k + 1;
    }
    (rows, restored)
}

} // verus!
