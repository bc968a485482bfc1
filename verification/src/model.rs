//! Issues as `bd` reports them, and the graph that arranges the listed ones
//! into the explorer's tree.
use vstd::prelude::*;
use vstd::string::*;
use crate::text::str_eq;

verus! {

/// An edge of an issue to another one. `bd show` reports the target's summary
/// (`id`, `title`, ...), `bd list` a raw edge record (`depends_on_id`, `type`);
/// both decode into this shape.
#[derive(Clone, Debug, Default, PartialEq, Eq)]
pub struct Dependency {
    pub id: String,
    pub title: String,
    pub status: String,
    pub priority: i32,
    pub dependency_type: String,
}

pub struct DependencyView {
    pub id: Seq<char>,
    pub title: Seq<char>,
    pub status: Seq<char>,
    pub priority: i32,
    pub dependency_type: Seq<char>,
}

impl View for Dependency {
    type V = DependencyView;

    open spec fn view(&self) -> DependencyView {
        DependencyView {
            id: self.id@,
            title: self.title@,
            status: self.status@,
            priority: self.priority,
            dependency_type: self.dependency_type@,
        }
    }
}

impl Dependency {
    /// A copy of this dependency.
    pub fn duplicate(&self) -> (r: Dependency)
        ensures
            r@ == self@,
    {
        Dependency {
            id: self.id.clone(),
            title: self.title.clone(),
            status: self.status.clone(),
            priority: self.priority,
            dependency_type: self.dependency_type.clone(),
        }
    }
}

#[derive(Clone, Debug, Default, PartialEq, Eq)]
pub struct Issue {
    pub id: String,
    pub title: String,
    pub description: String,
    pub status: String,
    pub priority: i32,
    pub issue_type: String,
    pub created_at: String,
    pub updated_at: String,
    pub dependencies: Vec<Dependency>,
}

pub struct IssueView {
    pub id: Seq<char>,
    pub title: Seq<char>,
    pub description: Seq<char>,
    pub status: Seq<char>,
    pub priority: i32,
    pub issue_type: Seq<char>,
    pub created_at: Seq<char>,
    pub updated_at: Seq<char>,
    pub dependencies: Seq<DependencyView>,
}

pub open spec fn dependency_views(deps: Seq<Dependency>) -> Seq<DependencyView> {
    deps.map_values(|d: Dependency| d@)
}

impl View for Issue {
    type V = IssueView;

    open spec fn view(&self) -> IssueView {
        IssueView {
            id: self.id@,
            title: self.title@,
            description: self.description@,
            status: self.status@,
            priority: self.priority,
            issue_type: self.issue_type@,
            created_at: self.created_at@,
            updated_at: self.updated_at@,
            dependencies: dependency_views(self.dependencies@),
        }
    }
}

impl Issue {
    /// A copy of this issue.
    pub fn duplicate(&self) -> (r: Issue)
        ensures
            r@ == self@,
    {
        let mut deps: Vec<Dependency> = Vec::new();
        let mut i: usize = 0;
        while i < self.dependencies.len()
            invariant
                i <= self.dependencies@.len(),
                dependency_views(deps@) == dependency_views(self.dependencies@).take(i as int),
            decreases self.dependencies@.len() - i,
        {
            let ghost before = deps@;
            let d = self.dependencies[i].duplicate();
            deps.push(d);
            proof {
                assert(deps@ == before.push(d));
                assert(dependency_views(deps@) =~= dependency_views(before).push(d@));
                assert(d@ == dependency_views(self.dependencies@)[i as int]);
            }
            i = i + 1;
            assert(dependency_views(deps@) =~= dependency_views(self.dependencies@).take(i as int));
        }
        assert(dependency_views(deps@) =~= dependency_views(self.dependencies@));
        Issue {
            id: self.id.clone(),
            title: self.title.clone(),
            description: self.description.clone(),
            status: self.status.clone(),
            priority: self.priority,
            issue_type: self.issue_type.clone(),
            created_at: self.created_at.clone(),
            updated_at: self.updated_at.clone(),
            dependencies: deps,
        }
    }
}

pub open spec fn issue_views(issues: Seq<Issue>) -> Seq<IssueView> {
    issues.map_values(|i: Issue| i@)
}

pub open spec fn string_views(v: Seq<String>) -> Seq<Seq<char>> {
    v.map_values(|s: String| s@)
}

#[derive(Clone, Copy, Debug, PartialEq, Eq)]
pub enum EditField {
    Title,
    Description,
}

/// Everything `bd create` needs for a new issue; `parent_id` is `None` for a
/// top-level issue.
#[derive(Clone, Debug, PartialEq, Eq)]
pub struct AddIssueDraft {
    pub parent_id: Option<String>,
    pub title: String,
    pub description: String,
    pub issue_type: String,
    pub priority: i32,
}

// ---------------------------------------------------------------------------
// The mathematical model of the graph.

/// The last issue of `issues` with this `id`: after a series of inserts into a
/// map keyed by id, the one that stays.
pub open spec fn issue_in(issues: Seq<IssueView>, id: Seq<char>) -> Option<IssueView>
    decreases issues.len(),
{
    if issues.len() == 0 {
        None
    } else if issues.last().id == id {
        Some(issues.last())
    } else {
        issue_in(issues.drop_last(), id)
    }
}

/// The first issue of `issues` with this `id`: after a series of
/// insert-if-absent operations, the one that stays.
pub open spec fn first_issue_in(issues: Seq<IssueView>, id: Seq<char>) -> Option<IssueView>
    decreases issues.len(),
{
    if issues.len() == 0 {
        None
    } else {
        match first_issue_in(issues.drop_last(), id) {
            Some(i) => Some(i),
            None => if issues.last().id == id {
                Some(issues.last())
            } else {
                None
            },
        }
    }
}

pub open spec fn ids_of(issues: Seq<IssueView>) -> Seq<Seq<char>> {
    issues.map_values(|i: IssueView| i.id)
}

/// `s` with every element after its first occurrence removed.
pub open spec fn dedup(s: Seq<Seq<char>>) -> Seq<Seq<char>>
    decreases s.len(),
{
    if s.len() == 0 {
        seq![]
    } else {
        let d = dedup(s.drop_last());
        if d.contains(s.last()) {
            d
        } else {
            d.push(s.last())
        }
    }
}

/// The issue that a graph built from `listed` and `context` holds for `id`
/// before missing dependency targets are filled in: listed issues win (the
/// last one of an id), then the first context issue of the id.
pub open spec fn base_issue(listed: Seq<IssueView>, context: Seq<IssueView>, id: Seq<char>) -> Option<
    IssueView,
> {
    match issue_in(listed, id) {
        Some(i) => Some(i),
        None => first_issue_in(context, id),
    }
}

/// `d` is a dependency of an issue that the graph holds from its inputs.
pub open spec fn is_base_dependency(
    listed: Seq<IssueView>,
    context: Seq<IssueView>,
    d: DependencyView,
) -> bool {
    exists|i: IssueView|
        #![trigger base_issue(listed, context, i.id), i.dependencies.contains(d)]
        base_issue(listed, context, i.id) == Some(i) && i.dependencies.contains(d)
}

/// The stand-in for a dependency target that no issue describes: it keeps the
/// summary the dependency carries, with `(not found)` and `?` for a missing
/// title and status.
pub open spec fn placeholder(d: DependencyView) -> IssueView {
    IssueView {
        id: d.id,
        title: if d.title.len() == 0 {
            "(not found)"@
        } else {
            d.title
        },
        description: seq![],
        status: if d.status.len() == 0 {
            "?"@
        } else {
            d.status
        },
        priority: d.priority,
        issue_type: seq![],
        created_at: seq![],
        updated_at: seq![],
        dependencies: seq![],
    }
}

/// What a graph built from `listed` and `context` holds for `id`: the input
/// issue, or else a placeholder made from some dependency that targets `id`,
/// or else nothing.
pub open spec fn holds_issue_for(
    listed: Seq<IssueView>,
    context: Seq<IssueView>,
    id: Seq<char>,
    r: Option<IssueView>,
) -> bool {
    match base_issue(listed, context, id) {
        Some(i) => r == Some(i),
        None => {
            &&& (r is Some <==> exists|d: DependencyView|
                #![trigger is_base_dependency(listed, context, d)]
                is_base_dependency(listed, context, d) && d.id == id)
            &&& (r is Some ==> exists|d: DependencyView|
                #![trigger is_base_dependency(listed, context, d)]
                is_base_dependency(listed, context, d) && d.id == id && r == Some(placeholder(d)))
        },
    }
}

/// The tree edge that dependency `d` of issue `issue_id` gives: `bd` stores
/// parent-child on the child, so that type points from the target to the
/// issue; every other type points from the issue to its prerequisite.
pub open spec fn dependency_edge(issue_id: Seq<char>, d: DependencyView) -> (Seq<char>, Seq<char>) {
    if d.dependency_type == "parent-child"@ {
        (d.id, issue_id)
    } else {
        (issue_id, d.id)
    }
}

/// The tree edges of one issue: those of its dependencies whose target is
/// listed.
pub open spec fn issue_edges(
    issue_id: Seq<char>,
    deps: Seq<DependencyView>,
    listed: Seq<Seq<char>>,
) -> Seq<(Seq<char>, Seq<char>)>
    decreases deps.len(),
{
    if deps.len() == 0 {
        seq![]
    } else {
        let rest = issue_edges(issue_id, deps.drop_last(), listed);
        if listed.contains(deps.last().id) {
            rest.push(dependency_edge(issue_id, deps.last()))
        } else {
            rest
        }
    }
}

/// The tree edges of the listed issues, in listing order.
pub open spec fn tree_edges(
    ids: Seq<Seq<char>>,
    listed: Seq<Seq<char>>,
    issues: Seq<IssueView>,
) -> Seq<(Seq<char>, Seq<char>)>
    decreases ids.len(),
{
    if ids.len() == 0 {
        seq![]
    } else {
        let id = ids.last();
        tree_edges(ids.drop_last(), listed, issues) + issue_edges(
            id,
            issue_in(issues, id).unwrap().dependencies,
            listed,
        )
    }
}

/// The children of `parent` along `edges`, each once, in the order of their
/// first edge.
pub open spec fn children_in(edges: Seq<(Seq<char>, Seq<char>)>, parent: Seq<char>) -> Seq<
    Seq<char>,
>
    decreases edges.len(),
{
    if edges.len() == 0 {
        seq![]
    } else {
        let rest = children_in(edges.drop_last(), parent);
        if edges.last().0 == parent && !rest.contains(edges.last().1) {
            rest.push(edges.last().1)
        } else {
            rest
        }
    }
}

/// `id` is the child end of some edge.
pub open spec fn is_target(edges: Seq<(Seq<char>, Seq<char>)>, id: Seq<char>) -> bool {
    exists|k: int| 0 <= k < edges.len() && (#[trigger] edges[k]).1 == id
}

/// The ids that no edge targets, in order.
pub open spec fn untargeted(ids: Seq<Seq<char>>, edges: Seq<(Seq<char>, Seq<char>)>) -> Seq<
    Seq<char>,
>
    decreases ids.len(),
{
    if ids.len() == 0 {
        seq![]
    } else {
        let rest = untargeted(ids.drop_last(), edges);
        if is_target(edges, ids.last()) {
            rest
        } else {
            rest.push(ids.last())
        }
    }
}

/// The roots of the tree: the listed issues that no edge targets, or, when
/// every listed issue sits on a cycle, all of them.
pub open spec fn roots_of(ids: Seq<Seq<char>>, edges: Seq<(Seq<char>, Seq<char>)>) -> Seq<
    Seq<char>,
> {
    if untargeted(ids, edges).len() == 0 {
        ids
    } else {
        untargeted(ids, edges)
    }
}

/// The untargeted ids of a list without repeats repeat none.
pub proof fn lemma_untargeted_unique(ids: Seq<Seq<char>>, edges: Seq<(Seq<char>, Seq<char>)>)
    requires
        ids.no_duplicates(),
    ensures
        untargeted(ids, edges).no_duplicates(),
        forall|i: int|
            0 <= i < untargeted(ids, edges).len() ==> ids.contains(
                #[trigger] untargeted(ids, edges)[i],
            ),
    decreases ids.len(),
{
    if ids.len() > 0 {
        let front = ids.drop_last();
        lemma_untargeted_unique(front, edges);
        let rest = untargeted(front, edges);
        assert forall|i: int| 0 <= i < rest.len() implies ids.contains(#[trigger] rest[i]) by {
            let j = choose|j: int| 0 <= j < front.len() && front[j] == rest[i];
            assert(ids[j] == rest[i]);
        }
        if !is_target(edges, ids.last()) {
            let out = rest.push(ids.last());
            assert(!rest.contains(ids.last())) by {
                if rest.contains(ids.last()) {
                    let i = choose|i: int| 0 <= i < rest.len() && rest[i] == ids.last();
                    let j = choose|j: int| 0 <= j < front.len() && front[j] == rest[i];
                    assert(ids[j] == ids[ids.len() - 1]);
                }
            }
            assert forall|i: int, k: int| 0 <= i < out.len() && 0 <= k < out.len() && i != k implies out[i]
                != out[k] by {
                if i < rest.len() && k < rest.len() {
                    assert(out[i] == rest[i] && out[k] == rest[k]);
                } else if i < rest.len() {
                    assert(out[i] == rest[i]);
                } else if k < rest.len() {
                    assert(out[k] == rest[k]);
                }
            }
            assert forall|i: int| 0 <= i < out.len() implies ids.contains(#[trigger] out[i]) by {
                if i < rest.len() {
                    assert(out[i] == rest[i]);
                } else {
                    assert(ids[ids.len() - 1] == out[i]);
                }
            }
        }
    }
}

pub struct IssueGraphView {
    pub issues: Seq<IssueView>,
    pub order: Seq<Seq<char>>,
    pub parents: Seq<Seq<char>>,
    pub child_lists: Seq<Seq<Seq<char>>>,
    pub roots: Seq<Seq<char>>,
}

/// The children listed for `parent` (none when it has no entry).
pub open spec fn child_list(
    parents: Seq<Seq<char>>,
    lists: Seq<Seq<Seq<char>>>,
    parent: Seq<char>,
) -> Seq<Seq<char>>
    decreases parents.len(),
{
    if parents.len() == 0 || lists.len() == 0 {
        seq![]
    } else if parents.last() == parent {
        lists[parents.len() - 1]
    } else {
        child_list(parents.drop_last(), lists, parent)
    }
}

impl IssueGraphView {
    pub open spec fn issue(self, id: Seq<char>) -> Option<IssueView> {
        issue_in(self.issues, id)
    }

    pub open spec fn is_listed(self, id: Seq<char>) -> bool {
        self.order.contains(id)
    }

    pub open spec fn children_of(self, id: Seq<char>) -> Seq<Seq<char>> {
        child_list(self.parents, self.child_lists, id)
    }

    /// The shape every graph keeps: ids are unique, every listed issue is
    /// held, and the tree (roots and children) only names listed issues.
    pub open spec fn wf(self) -> bool {
        &&& ids_of(self.issues).no_duplicates()
        &&& self.order.no_duplicates()
        &&& forall|k: int| 0 <= k < self.order.len() ==> (#[trigger] self.issue(self.order[k])) is Some
        &&& self.parents.no_duplicates()
        &&& self.parents.len() == self.child_lists.len()
        &&& forall|k: int| 0 <= k < self.parents.len() ==> self.order.contains(#[trigger] self.parents[k])
        &&& forall|k: int, m: int|
            0 <= k < self.child_lists.len() && 0 <= m < self.child_lists[k].len() ==> self.order.contains(
                #[trigger] self.child_lists[k][m],
            )
        &&& forall|k: int| 0 <= k < self.child_lists.len() ==> (#[trigger] self.child_lists[k]).no_duplicates()
        &&& forall|k: int| 0 <= k < self.roots.len() ==> self.order.contains(#[trigger] self.roots[k])
        &&& self.roots.no_duplicates()
    }

    /// This graph is the one built from `listed` (the tree) and `context`
    /// (issues that only describe dependency targets).
    pub open spec fn built_from(self, listed: Seq<IssueView>, context: Seq<IssueView>) -> bool {
        let order = dedup(ids_of(listed));
        let edges = tree_edges(order, order, listed);
        &&& self.wf()
        &&& self.order == order
        &&& forall|id: Seq<char>| #[trigger]
            holds_issue_for(listed, context, id, self.issue(id))
        &&& forall|p: Seq<char>| #[trigger] self.children_of(p) == children_in(edges, p)
        &&& self.roots == roots_of(order, edges)
    }
}

/// The listed issues of a graph other than `id`, in listing order.
pub open spec fn listed_without(order: Seq<Seq<char>>, issues: Seq<IssueView>, id: Seq<char>) -> Seq<
    IssueView,
>
    decreases order.len(),
{
    if order.len() == 0 {
        seq![]
    } else {
        let rest = listed_without(order.drop_last(), issues, id);
        if order.last() == id {
            rest
        } else {
            rest.push(issue_in(issues, order.last()).unwrap())
        }
    }
}

/// The issues a graph holds that are not listed, in the order it holds them.
pub open spec fn unlisted(issues: Seq<IssueView>, order: Seq<Seq<char>>) -> Seq<IssueView>
    decreases issues.len(),
{
    if issues.len() == 0 {
        seq![]
    } else {
        let rest = unlisted(issues.drop_last(), order);
        if order.contains(issues.last().id) {
            rest
        } else {
            rest.push(issues.last())
        }
    }
}

/// `issue` with its status set to `closed`.
pub open spec fn closed_copy(issue: IssueView) -> IssueView {
    IssueView { status: "closed"@, ..issue }
}

/// The context of a graph once `id` is closed: its unlisted issues, then the
/// closed copy of `id`.
pub open spec fn context_after_close(g: IssueGraphView, id: Seq<char>) -> Seq<IssueView> {
    unlisted(g.issues, g.order) + match g.issue(id) {
        Some(i) => seq![closed_copy(i)],
        None => seq![],
    }
}

/// The statuses that `bd` lists in the tree.
pub open spec fn is_open_status(status: Seq<char>) -> bool {
    status == "open"@ || status == "in_progress"@
}

/// The loaded issues with an open status (`want`) or any other status.
pub open spec fn with_status(issues: Seq<IssueView>, want: bool) -> Seq<IssueView>
    decreases issues.len(),
{
    if issues.len() == 0 {
        seq![]
    } else {
        let rest = with_status(issues.drop_last(), want);
        if is_open_status(issues.last().status) == want {
            rest.push(issues.last())
        } else {
            rest
        }
    }
}

pub struct IssueGraph {
    issues: Vec<Issue>,
    order: Vec<String>,
    parents: Vec<String>,
    child_lists: Vec<Vec<String>>,
    roots: Vec<String>,
}

impl View for IssueGraph {
    type V = IssueGraphView;

    closed spec fn view(&self) -> IssueGraphView {
        IssueGraphView {
            issues: issue_views(self.issues@),
            order: string_views(self.order@),
            parents: string_views(self.parents@),
            child_lists: self.child_lists@.map_values(|l: Vec<String>| string_views(l@)),
            roots: string_views(self.roots@),
        }
    }
}

// ---------------------------------------------------------------------------
// Facts about the model.

pub proof fn lemma_issue_in_push(s: Seq<IssueView>, x: IssueView, id: Seq<char>)
    ensures
        issue_in(s.push(x), id) == if x.id == id {
            Some(x)
        } else {
            issue_in(s, id)
        },
{
    assert(s.push(x).drop_last() =~= s);
}

pub proof fn lemma_first_issue_in_push(s: Seq<IssueView>, x: IssueView, id: Seq<char>)
    ensures
        first_issue_in(s.push(x), id) == match first_issue_in(s, id) {
            Some(i) => Some(i),
            None => if x.id == id {
                Some(x)
            } else {
                None
            },
        },
{
    assert(s.push(x).drop_last() =~= s);
}

/// The issue that `issue_in` finds is one of the sequence, under that id; and
/// it finds one whenever the id occurs.
pub proof fn lemma_issue_in_found(s: Seq<IssueView>, id: Seq<char>)
    ensures
        issue_in(s, id) matches Some(x) ==> x.id == id && s.contains(x),
        issue_in(s, id) is None <==> forall|k: int| 0 <= k < s.len() ==> (#[trigger] s[k]).id != id,
    decreases s.len(),
{
    if s.len() > 0 {
        lemma_issue_in_found(s.drop_last(), id);
        if issue_in(s, id) is None {
            assert forall|k: int| 0 <= k < s.len() implies (#[trigger] s[k]).id != id by {
                if k < s.len() - 1 {
                    assert(s[k] == s.drop_last()[k]);
                }
            }
        }
        if let Some(x) = issue_in(s.drop_last(), id) {
            if s.last().id != id {
                let k = choose|k: int| 0 <= k < s.drop_last().len() && s.drop_last()[k] == x;
                assert(s[k] == x);
            }
        }
        if issue_in(s, id) is Some {
            if s.last().id != id {
                let x = issue_in(s.drop_last(), id).unwrap();
                let k = choose|k: int| 0 <= k < s.drop_last().len() && s.drop_last()[k] == x;
                assert(s[k].id == id);
            } else {
                assert(s[s.len() - 1].id == id);
            }
        }
    }
}

/// With unique ids, `issue_in` finds exactly the element of that id.
pub proof fn lemma_issue_in_unique(s: Seq<IssueView>, k: int)
    requires
        ids_of(s).no_duplicates(),
        0 <= k < s.len(),
    ensures
        issue_in(s, s[k].id) == Some(s[k]),
    decreases s.len(),
{
    if k < s.len() - 1 {
        assert(ids_of(s)[k] == s[k].id && ids_of(s)[s.len() - 1] == s.last().id);
        assert(ids_of(s.drop_last()) =~= ids_of(s).drop_last());
        assert(s.drop_last()[k] == s[k]);
        lemma_issue_in_unique(s.drop_last(), k);
    }
}

/// Replacing the element of an id changes what `issue_in` finds for it only.
pub proof fn lemma_issue_in_update(s: Seq<IssueView>, k: int, x: IssueView, id: Seq<char>)
    requires
        ids_of(s).no_duplicates(),
        0 <= k < s.len(),
        x.id == s[k].id,
    ensures
        ids_of(s.update(k, x)).no_duplicates(),
        issue_in(s.update(k, x), id) == if id == x.id {
            Some(x)
        } else {
            issue_in(s, id)
        },
{
    let t = s.update(k, x);
    assert(ids_of(t) =~= ids_of(s));
    if id == x.id {
        lemma_issue_in_unique(t, k);
    } else {
        lemma_issue_in_found(s, id);
        lemma_issue_in_found(t, id);
        if let Some(y) = issue_in(s, id) {
            let m = choose|m: int| 0 <= m < s.len() && s[m] == y;
            assert(m != k);
            lemma_issue_in_unique(s, m);
            assert(t[m] == y);
            lemma_issue_in_unique(t, m);
        } else {
            assert forall|m: int| 0 <= m < t.len() implies (#[trigger] t[m]).id != id by {
                if m != k {
                    assert(t[m] == s[m]);
                }
            }
        }
    }
}

pub proof fn lemma_dedup(s: Seq<Seq<char>>)
    ensures
        dedup(s).no_duplicates(),
        forall|x: Seq<char>| #[trigger] dedup(s).contains(x) <==> s.contains(x),
    decreases s.len(),
{
    if s.len() > 0 {
        lemma_dedup(s.drop_last());
        assert(s[s.len() - 1] == s.last());
        assert forall|x: Seq<char>| #[trigger] dedup(s).contains(x) <==> s.contains(x) by {
            let d = dedup(s.drop_last());
            if !d.contains(s.last()) {
                assert(d.push(s.last())[d.len() as int] == s.last());
                if d.contains(x) {
                    let k = choose|k: int| 0 <= k < d.len() && d[k] == x;
                    assert(d.push(s.last())[k] == x);
                }
                if d.push(s.last()).contains(x) && x != s.last() {
                    let k = choose|k: int| 0 <= k < d.len() + 1 && d.push(s.last())[k] == x;
                    assert(d[k] == x);
                }
            }
            if s.contains(x) && x != s.last() {
                let k = choose|k: int| 0 <= k < s.len() && s[k] == x;
                assert(s.drop_last()[k] == x);
            }
            if dedup(s.drop_last()).contains(x) {
                let k = choose|k: int| 0 <= k < s.drop_last().len() && s.drop_last()[k] == x;
                assert(s[k] == x);
            }
        }
    }
}

pub proof fn lemma_dedup_push(s: Seq<Seq<char>>, x: Seq<char>)
    ensures
        dedup(s.push(x)) == if s.contains(x) {
            dedup(s)
        } else {
            dedup(s).push(x)
        },
{
    assert(s.push(x).drop_last() =~= s);
    lemma_dedup(s);
}

pub proof fn lemma_child_list_extend(
    pv: Seq<Seq<char>>,
    lv: Seq<Seq<Seq<char>>>,
    lv2: Seq<Seq<Seq<char>>>,
    q: Seq<char>,
)
    requires
        lv.len() >= pv.len(),
        lv2.len() >= pv.len(),
        forall|k: int| 0 <= k < pv.len() ==> lv2[k] == lv[k],
    ensures
        child_list(pv, lv2, q) == child_list(pv, lv, q),
    decreases pv.len(),
{
    if pv.len() > 0 {
        lemma_child_list_extend(pv.drop_last(), lv, lv2, q);
    }
}

pub proof fn lemma_child_list_found(pv: Seq<Seq<char>>, lv: Seq<Seq<Seq<char>>>, k: int)
    requires
        pv.no_duplicates(),
        pv.len() <= lv.len(),
        0 <= k < pv.len(),
    ensures
        child_list(pv, lv, pv[k]) == lv[k],
    decreases pv.len(),
{
    if k < pv.len() - 1 {
        assert(pv.drop_last()[k] == pv[k]);
        lemma_child_list_found(pv.drop_last(), lv, k);
    }
}

pub proof fn lemma_child_list_absent(pv: Seq<Seq<char>>, lv: Seq<Seq<Seq<char>>>, q: Seq<char>)
    requires
        !pv.contains(q),
    ensures
        child_list(pv, lv, q) == Seq::<Seq<char>>::empty(),
    decreases pv.len(),
{
    if pv.len() > 0 && lv.len() > 0 {
        assert(pv[pv.len() - 1] == pv.last());
        assert(!pv.drop_last().contains(q)) by {
            if pv.drop_last().contains(q) {
                let m = choose|m: int| 0 <= m < pv.drop_last().len() && pv.drop_last()[m] == q;
                assert(pv[m] == q);
            }
        }
        lemma_child_list_absent(pv.drop_last(), lv, q);
    }
}

pub proof fn lemma_child_list_push(
    pv: Seq<Seq<char>>,
    lv: Seq<Seq<Seq<char>>>,
    p: Seq<char>,
    l: Seq<Seq<char>>,
    q: Seq<char>,
)
    requires
        pv.len() == lv.len(),
    ensures
        child_list(pv.push(p), lv.push(l), q) == if q == p {
            l
        } else {
            child_list(pv, lv, q)
        },
{
    assert(pv.push(p).drop_last() =~= pv);
    lemma_child_list_extend(pv, lv, lv.push(l), q);
}

pub proof fn lemma_child_list_update(
    pv: Seq<Seq<char>>,
    lv: Seq<Seq<Seq<char>>>,
    k: int,
    l: Seq<Seq<char>>,
    q: Seq<char>,
)
    requires
        pv.no_duplicates(),
        pv.len() == lv.len(),
        0 <= k < pv.len(),
    ensures
        child_list(pv, lv.update(k, l), q) == if q == pv[k] {
            l
        } else {
            child_list(pv, lv, q)
        },
{
    let lu = lv.update(k, l);
    if q == pv[k] {
        lemma_child_list_found(pv, lu, k);
    } else if pv.contains(q) {
        let m = choose|m: int| 0 <= m < pv.len() && pv[m] == q;
        lemma_child_list_found(pv, lu, m);
        lemma_child_list_found(pv, lv, m);
    } else {
        lemma_child_list_absent(pv, lu, q);
        lemma_child_list_absent(pv, lv, q);
    }
}

pub proof fn lemma_children_in_distinct(edges: Seq<(Seq<char>, Seq<char>)>, p: Seq<char>)
    ensures
        children_in(edges, p).no_duplicates(),
    decreases edges.len(),
{
    if edges.len() > 0 {
        lemma_children_in_distinct(edges.drop_last(), p);
    }
}

/// Issue lookups that agree on the listed ids give the same tree edges.
pub proof fn lemma_tree_edges_agree(
    ids: Seq<Seq<char>>,
    listed: Seq<Seq<char>>,
    a: Seq<IssueView>,
    b: Seq<IssueView>,
)
    requires
        forall|k: int| 0 <= k < ids.len() ==> issue_in(a, #[trigger] ids[k]) == issue_in(b, ids[k]),
    ensures
        tree_edges(ids, listed, a) == tree_edges(ids, listed, b),
    decreases ids.len(),
{
    if ids.len() > 0 {
        assert forall|k: int| 0 <= k < ids.drop_last().len() implies issue_in(
            a,
            #[trigger] ids.drop_last()[k],
        ) == issue_in(b, ids.drop_last()[k]) by {
            assert(ids.drop_last()[k] == ids[k]);
        }
        lemma_tree_edges_agree(ids.drop_last(), listed, a, b);
        assert(issue_in(a, ids[ids.len() - 1]) == issue_in(b, ids[ids.len() - 1]));
    }
}

// ---------------------------------------------------------------------------
// Searching.

/// The position of the issue with this id.
fn find_issue(issues: &Vec<Issue>, id: &str) -> (r: Option<usize>)
    ensures
        r matches Some(k) ==> k < issues@.len() && issues@[k as int].id@ == id@,
        r is None ==> forall|k: int| 0 <= k < issues@.len() ==> (#[trigger] issues@[k]).id@ != id@,
{
    let mut k: usize = 0;
    while k < issues.len()
        invariant
            k <= issues@.len(),
            forall|m: int| 0 <= m < k ==> (#[trigger] issues@[m]).id@ != id@,
        decreases issues@.len() - k,
    {
        if str_eq(issues[k].id.as_str(), id) {
            return Some(k);
        }
        k = k + 1;
    }
    None
}

/// The position of this string in `v`.
pub(crate) fn find_string(v: &Vec<String>, s: &str) -> (r: Option<usize>)
    ensures
        r matches Some(k) ==> k < v@.len() && v@[k as int]@ == s@,
        r is None ==> forall|k: int| 0 <= k < v@.len() ==> (#[trigger] v@[k])@ != s@,
        r is None <==> !string_views(v@).contains(s@),
{
    let mut k: usize = 0;
    while k < v.len()
        invariant
            k <= v@.len(),
            forall|m: int| 0 <= m < k ==> (#[trigger] v@[m])@ != s@,
        decreases v@.len() - k,
    {
        if str_eq(v[k].as_str(), s) {
            proof {
                assert(string_views(v@)[k as int] == s@);
            }
            return Some(k);
        }
        k = k + 1;
    }
    proof {
        if string_views(v@).contains(s@) {
            let m = choose|m: int| 0 <= m < v@.len() && string_views(v@)[m] == s@;
            assert(v@[m]@ == s@);
        }
    }
    None
}

// ---------------------------------------------------------------------------
// Building a graph.

/// The listed issues keyed by id (a later one replaces an earlier one of the
/// same id), with the ids in the order of their first appearance.
fn insert_listed(listed: &Vec<Issue>) -> (r: (Vec<Issue>, Vec<String>))
    ensures
        ids_of(issue_views(r.0@)).no_duplicates(),
        ids_of(issue_views(r.0@)) == string_views(r.1@),
        string_views(r.1@) == dedup(ids_of(issue_views(listed@))),
        forall|id: Seq<char>| #[trigger]
            issue_in(issue_views(r.0@), id) == issue_in(issue_views(listed@), id),
{
    let mut issues: Vec<Issue> = Vec::new();
    let mut order: Vec<String> = Vec::new();
    let mut i: usize = 0;
    proof {
        assert(ids_of(issue_views(listed@)).take(0) =~= seq![]);
        assert(issue_views(listed@).take(0) =~= seq![]);
    }
    while i < listed.len()
        invariant
            i <= listed@.len(),
            ids_of(issue_views(issues@)).no_duplicates(),
            ids_of(issue_views(issues@)) == string_views(order@),
            string_views(order@) == dedup(ids_of(issue_views(listed@).take(i as int))),
            forall|id: Seq<char>| #[trigger]
                issue_in(issue_views(issues@), id) == issue_in(
                    issue_views(listed@).take(i as int),
                    id,
                ),
        decreases listed@.len() - i,
    {
        let issue = listed[i].duplicate();
        let ghost lv = issue_views(listed@);
        let ghost prefix = lv.take(i as int);
        let ghost next = lv.take(i + 1);
        proof {
            assert(next =~= prefix.push(issue@));
            assert(ids_of(next) =~= ids_of(prefix).push(issue@.id));
            lemma_dedup_push(ids_of(prefix), issue@.id);
            lemma_dedup(ids_of(prefix));
        }
        let ghost before = issue_views(issues@);
        match find_issue(&issues, issue.id.as_str()) {
            Some(k) => {
                proof {
                    assert(before[k as int].id == issue@.id);
                    assert(ids_of(before)[k as int] == issue@.id);
                    assert(ids_of(before).contains(issue@.id));
                    assert(dedup(ids_of(prefix)).contains(issue@.id));
                    assert(ids_of(prefix).contains(issue@.id));
                    assert forall|id: Seq<char>| #[trigger]
                        issue_in(before.update(k as int, issue@), id) == issue_in(next, id) by {
                        lemma_issue_in_update(before, k as int, issue@, id);
                        lemma_issue_in_push(prefix, issue@, id);
                    }
                    lemma_issue_in_update(before, k as int, issue@, issue@.id);
                }
                issues.set(k, issue);
                proof {
                    assert(issue_views(issues@) =~= before.update(k as int, issue@));
                    assert(ids_of(issue_views(issues@)) =~= ids_of(before));
                }
            },
            None => {
                proof {
                    assert(!ids_of(prefix).contains(issue@.id)) by {
                        if ids_of(prefix).contains(issue@.id) {
                            assert(dedup(ids_of(prefix)).contains(issue@.id));
                            assert(ids_of(before).contains(issue@.id));
                            let m = choose|m: int|
                                0 <= m < ids_of(before).len() && ids_of(before)[m] == issue@.id;
                            assert(before[m].id == issue@.id);
                            assert(issues@[m].id@ == issue.id@);
                        }
                    }
                    assert forall|id: Seq<char>| #[trigger]
                        issue_in(before.push(issue@), id) == issue_in(next, id) by {
                        lemma_issue_in_push(before, issue@, id);
                        lemma_issue_in_push(prefix, issue@, id);
                    }
                }
                order.push(issue.id.clone());
                issues.push(issue);
                proof {
                    assert(issue_views(issues@) =~= before.push(issue@));
                    assert(ids_of(issue_views(issues@)) =~= ids_of(before).push(issue@.id));
                    assert(string_views(order@) =~= ids_of(before).push(issue@.id));
                }
            },
        }
        i = i + 1;
    }
    proof {
        assert(issue_views(listed@).take(listed@.len() as int) =~= issue_views(listed@));
    }
    (issues, order)
}

/// Adds each context issue whose id is not held yet.
fn insert_context(issues: &mut Vec<Issue>, context: &Vec<Issue>)
    requires
        ids_of(issue_views(old(issues)@)).no_duplicates(),
    ensures
        ids_of(issue_views(final(issues)@)).no_duplicates(),
        final(issues)@.len() >= old(issues)@.len(),
        final(issues)@.take(old(issues)@.len() as int) == old(issues)@,
        forall|id: Seq<char>| #[trigger]
            issue_in(issue_views(final(issues)@), id) == match issue_in(
                issue_views(old(issues)@),
                id,
            ) {
                Some(i) => Some(i),
                None => first_issue_in(issue_views(context@), id),
            },
{
    let ghost start = issues@;
    let mut j: usize = 0;
    proof {
        assert(issue_views(context@).take(0) =~= seq![]);
        assert(issues@.take(start.len() as int) =~= start);
    }
    while j < context.len()
        invariant
            j <= context@.len(),
            ids_of(issue_views(issues@)).no_duplicates(),
            issues@.len() >= start.len(),
            issues@.take(start.len() as int) == start,
            forall|id: Seq<char>| #[trigger]
                issue_in(issue_views(issues@), id) == match issue_in(issue_views(start), id) {
                    Some(i) => Some(i),
                    None => first_issue_in(issue_views(context@).take(j as int), id),
                },
        decreases context@.len() - j,
    {
        let ghost cv = issue_views(context@);
        let ghost prefix = cv.take(j as int);
        let ghost before = issue_views(issues@);
        let ghost before_exec = issues@;
        proof {
            assert(cv.take(j + 1) =~= prefix.push(cv[j as int]));
        }
        match find_issue(issues, context[j].id.as_str()) {
            Some(k) => {
                proof {
                    let c = cv[j as int];
                    assert forall|id: Seq<char>| #[trigger]
                        issue_in(before, id) == match issue_in(issue_views(start), id) {
                            Some(i) => Some(i),
                            None => first_issue_in(cv.take(j + 1), id),
                        } by {
                        lemma_first_issue_in_push(prefix, c, id);
                        if id == c.id {
                            lemma_issue_in_unique(before, k as int);
                            assert(before[k as int].id == c.id);
                        }
                    }
                }
            },
            None => {
                let c = context[j].duplicate();
                proof {
                    lemma_issue_in_found(before, c@.id);
                    assert forall|id: Seq<char>| #[trigger]
                        issue_in(before.push(c@), id) == match issue_in(issue_views(start), id) {
                            Some(i) => Some(i),
                            None => first_issue_in(cv.take(j + 1), id),
                        } by {
                        lemma_first_issue_in_push(prefix, c@, id);
                        lemma_issue_in_push(before, c@, id);
                    }
                    assert(!ids_of(before).contains(c@.id)) by {
                        if ids_of(before).contains(c@.id) {
                            let m = choose|m: int|
                                0 <= m < ids_of(before).len() && ids_of(before)[m] == c@.id;
                            assert(before[m].id == c@.id);
                        }
                    }
                }
                issues.push(c);
                proof {
                    assert(issue_views(issues@) =~= before.push(c@));
                    assert(ids_of(issue_views(issues@)) =~= ids_of(before).push(c@.id));
                    assert(issues@.take(start.len() as int) =~= before_exec.take(
                        start.len() as int,
                    ));
                }
            },
        }
        j = j + 1;
    }
    proof {
        assert(issue_views(context@).take(context@.len() as int) =~= issue_views(context@));
    }
}

/// The stand-in issue for a dependency target that nothing describes.
fn placeholder_for(d: &Dependency) -> (r: Issue)
    ensures
        r@ == placeholder(d@),
{
    let title = if d.title.as_str().is_empty() {
        String::from_str("(not found)")
    } else {
        d.title.clone()
    };
    let status = if d.status.as_str().is_empty() {
        String::from_str("?")
    } else {
        d.status.clone()
    };
    let r = Issue {
        id: d.id.clone(),
        title,
        description: String::new(),
        status,
        priority: d.priority,
        issue_type: String::new(),
        created_at: String::new(),
        updated_at: String::new(),
        dependencies: Vec::new(),
    };
    assert(dependency_views(r.dependencies@) =~= seq![]);
    r
}

/// Adds a placeholder for every dependency target of a held issue that no
/// issue describes.
fn insert_placeholders(
    issues: &mut Vec<Issue>,
    Ghost(listed): Ghost<Seq<IssueView>>,
    Ghost(context): Ghost<Seq<IssueView>>,
)
    requires
        ids_of(issue_views(old(issues)@)).no_duplicates(),
        forall|id: Seq<char>| #[trigger]
            issue_in(issue_views(old(issues)@), id) == base_issue(listed, context, id),
    ensures
        ids_of(issue_views(final(issues)@)).no_duplicates(),
        final(issues)@.len() >= old(issues)@.len(),
        final(issues)@.take(old(issues)@.len() as int) == old(issues)@,
        forall|id: Seq<char>| #[trigger]
            holds_issue_for(listed, context, id, issue_in(issue_views(final(issues)@), id)),
{
    let ghost start = issues@;
    let ghost sv = issue_views(start);
    let n = issues.len();
    let mut k: usize = 0;
    proof {
        assert(issues@.take(n as int) =~= start);
    }
    while k < n
        invariant
            n == start.len(),
            sv == issue_views(start),
            k <= n,
            issues@.len() >= n,
            issues@.take(n as int) == start,
            ids_of(issue_views(issues@)).no_duplicates(),
            ids_of(sv).no_duplicates(),
            forall|id: Seq<char>| #[trigger] issue_in(sv, id) == base_issue(listed, context, id),
            forall|id: Seq<char>|
                (#[trigger] base_issue(listed, context, id)) is Some ==> issue_in(
                    issue_views(issues@),
                    id,
                ) == base_issue(listed, context, id),
            forall|id: Seq<char>|
                base_issue(listed, context, id) is None && (#[trigger] issue_in(
                    issue_views(issues@),
                    id,
                )) is Some ==> exists|d: DependencyView|
                    #![trigger is_base_dependency(listed, context, d)]
                    is_base_dependency(listed, context, d) && d.id == id && issue_in(
                        issue_views(issues@),
                        id,
                    ) == Some(placeholder(d)),
            forall|k2: int, j2: int|
                0 <= k2 < k && 0 <= j2 < sv[k2].dependencies.len() ==> (#[trigger] issue_in(
                    issue_views(issues@),
                    sv[k2].dependencies[j2].id,
                )) is Some,
        decreases n - k,
    {
        let m = issues[k].dependencies.len();
        let mut j: usize = 0;
        proof {
            assert(issues@[k as int] == start[k as int]);
        }
        while j < m
            invariant
                n == start.len(),
                sv == issue_views(start),
                k < n,
                j <= m,
                m == sv[k as int].dependencies.len(),
                issues@.len() >= n,
                issues@.take(n as int) == start,
                ids_of(issue_views(issues@)).no_duplicates(),
                ids_of(sv).no_duplicates(),
                forall|id: Seq<char>| #[trigger] issue_in(sv, id) == base_issue(listed, context, id),
                forall|id: Seq<char>|
                    (#[trigger] base_issue(listed, context, id)) is Some ==> issue_in(
                        issue_views(issues@),
                        id,
                    ) == base_issue(listed, context, id),
                forall|id: Seq<char>|
                    base_issue(listed, context, id) is None && (#[trigger] issue_in(
                        issue_views(issues@),
                        id,
                    )) is Some ==> exists|d: DependencyView|
                        #![trigger is_base_dependency(listed, context, d)]
                        is_base_dependency(listed, context, d) && d.id == id && issue_in(
                            issue_views(issues@),
                            id,
                        ) == Some(placeholder(d)),
                forall|k2: int, j2: int|
                    0 <= k2 < k && 0 <= j2 < sv[k2].dependencies.len() ==> (#[trigger] issue_in(
                        issue_views(issues@),
                        sv[k2].dependencies[j2].id,
                    )) is Some,
                forall|j2: int|
                    0 <= j2 < j ==> (#[trigger] issue_in(
                        issue_views(issues@),
                        sv[k as int].dependencies[j2].id,
                    )) is Some,
            decreases m - j,
        {
            let ghost before = issue_views(issues@);
            let ghost before_exec = issues@;
            proof {
                assert(issues@[k as int] == issues@.take(n as int)[k as int]);
                assert(issues@[k as int] == start[k as int]);
            }
            let found = find_issue(issues, issues[k].dependencies[j].id.as_str());
            if found.is_none() {
                let p = placeholder_for(&issues[k].dependencies[j]);
                let ghost d = sv[k as int].dependencies[j as int];
                proof {
                    assert(d == issues@[k as int].dependencies@[j as int]@);
                    assert(p@.id == d.id);
                    lemma_issue_in_found(before, d.id);
                    assert(base_issue(listed, context, d.id) is None);
                    lemma_issue_in_unique(sv, k as int);
                    let i = sv[k as int];
                    assert(base_issue(listed, context, i.id) == Some(i));
                    assert(i.dependencies[j as int] == d);
                    assert(i.dependencies.contains(d));
                    assert(is_base_dependency(listed, context, d));
                    assert(!ids_of(before).contains(d.id)) by {
                        if ids_of(before).contains(d.id) {
                            let q = choose|q: int|
                                0 <= q < ids_of(before).len() && ids_of(before)[q] == d.id;
                            assert(before[q].id == d.id);
                        }
                    }
                }
                issues.push(p);
                proof {
                    assert(issue_views(issues@) =~= before.push(p@));
                    assert(ids_of(issue_views(issues@)) =~= ids_of(before).push(p@.id));
                    assert(issues@.take(n as int) =~= before_exec.take(n as int));
                    assert forall|id: Seq<char>|
                        (#[trigger] base_issue(listed, context, id)) is Some implies issue_in(
                            issue_views(issues@),
                            id,
                        ) == base_issue(listed, context, id) by {
                        lemma_issue_in_push(before, p@, id);
                    }
                    assert forall|id: Seq<char>|
                        base_issue(listed, context, id) is None && (#[trigger] issue_in(
                            issue_views(issues@),
                            id,
                        )) is Some implies exists|d2: DependencyView|
                        #![trigger is_base_dependency(listed, context, d2)]
                        is_base_dependency(listed, context, d2) && d2.id == id && issue_in(
                            issue_views(issues@),
                            id,
                        ) == Some(placeholder(d2)) by {
                        lemma_issue_in_push(before, p@, id);
                        if id == d.id {
                            assert(is_base_dependency(listed, context, d));
                        }
                    }
                    assert forall|k2: int, j2: int|
                        0 <= k2 < k && 0 <= j2 < sv[k2].dependencies.len() implies (#[trigger] issue_in(
                            issue_views(issues@),
                            sv[k2].dependencies[j2].id,
                        )) is Some by {
                        lemma_issue_in_push(before, p@, sv[k2].dependencies[j2].id);
                    }
                    assert forall|j2: int| 0 <= j2 < j + 1 implies (#[trigger] issue_in(
                        issue_views(issues@),
                        sv[k as int].dependencies[j2].id,
                    )) is Some by {
                        lemma_issue_in_push(before, p@, sv[k as int].dependencies[j2].id);
                    }
                }
            } else {
                proof {
                    let q = found.unwrap();
                    let d = sv[k as int].dependencies[j as int];
                    assert(d == issues@[k as int].dependencies@[j as int]@);
                    assert(before[q as int].id == d.id);
                    lemma_issue_in_unique(before, q as int);
                }
            }
            j = j + 1;
        }
        k = k + 1;
    }
    proof {
        assert forall|id: Seq<char>| #[trigger]
            holds_issue_for(listed, context, id, issue_in(issue_views(issues@), id)) by {
            if base_issue(listed, context, id) is None {
                assert forall|d: DependencyView|
                    #[trigger] is_base_dependency(listed, context, d) && d.id == id implies issue_in(
                    issue_views(issues@),
                    id,
                ) is Some by {
                    let i = choose|i: IssueView|
                        #![trigger base_issue(listed, context, i.id), i.dependencies.contains(d)]
                        base_issue(listed, context, i.id) == Some(i) && i.dependencies.contains(d);
                    assert(issue_in(sv, i.id) == Some(i));
                    lemma_issue_in_found(sv, i.id);
                    let k2 = choose|k2: int| 0 <= k2 < sv.len() && sv[k2] == i;
                    let j2 = choose|j2: int| 0 <= j2 < i.dependencies.len() && i.dependencies[j2] == d;
                    assert(sv[k2].dependencies[j2].id == id);
                }
            }
        }
    }
}

/// A copy of a list of strings.
pub(crate) fn clone_strings(v: &Vec<String>) -> (r: Vec<String>)
    ensures
        r@ == v@,
{
    let mut r: Vec<String> = Vec::new();
    let mut i: usize = 0;
    while i < v.len()
        invariant
            i <= v@.len(),
            r@ == v@.take(i as int),
        decreases v@.len() - i,
    {
        r.push(v[i].clone());
        i = i + 1;
        assert(r@ =~= v@.take(i as int));
    }
    assert(v@.take(v@.len() as int) =~= v@);
    r
}

pub open spec fn edge_targets(edges: Seq<(Seq<char>, Seq<char>)>) -> Seq<Seq<char>> {
    edges.map_values(|e: (Seq<char>, Seq<char>)| e.1)
}

pub open spec fn list_views(lists: Seq<Vec<String>>) -> Seq<Seq<Seq<char>>> {
    lists.map_values(|l: Vec<String>| string_views(l@))
}

/// The tree edges of the listed issues, gathered per parent (children in
/// first-edge order, each once), together with the edge targets in order.
fn build_tree(issues: &Vec<Issue>, order: &Vec<String>) -> (r: (
    Vec<String>,
    Vec<Vec<String>>,
    Vec<String>,
))
    requires
        ids_of(issue_views(issues@)).no_duplicates(),
        string_views(order@).no_duplicates(),
        forall|k: int|
            0 <= k < order@.len() ==> (#[trigger] issue_in(
                issue_views(issues@),
                string_views(order@)[k],
            )) is Some,
    ensures
        ({
            let ov = string_views(order@);
            let edges = tree_edges(ov, ov, issue_views(issues@));
            let pv = string_views(r.0@);
            let lv = list_views(r.1@);
            &&& pv.no_duplicates()
            &&& pv.len() == lv.len()
            &&& forall|p: Seq<char>| #[trigger] child_list(pv, lv, p) == children_in(edges, p)
            &&& forall|k: int| 0 <= k < pv.len() ==> ov.contains(#[trigger] pv[k])
            &&& forall|k: int, m: int|
                0 <= k < lv.len() && 0 <= m < lv[k].len() ==> ov.contains(#[trigger] lv[k][m])
            &&& forall|k: int| 0 <= k < lv.len() ==> (#[trigger] lv[k]).no_duplicates()
            &&& string_views(r.2@) == edge_targets(edges)
        }),
{
    let ghost ov = string_views(order@);
    let ghost iv = issue_views(issues@);
    let mut parents: Vec<String> = Vec::new();
    let mut child_lists: Vec<Vec<String>> = Vec::new();
    let mut targets: Vec<String> = Vec::new();
    let ghost mut edges: Seq<(Seq<char>, Seq<char>)> = seq![];
    let mut i: usize = 0;
    proof {
        assert(ov.take(0) =~= seq![]);
        assert(string_views(targets@) =~= edge_targets(edges));
        assert forall|p: Seq<char>| #[trigger]
            child_list(string_views(parents@), list_views(child_lists@), p) == children_in(
                edges,
                p,
            ) by {}
    }
    while i < order.len()
        invariant
            ov == string_views(order@),
            iv == issue_views(issues@),
            ids_of(iv).no_duplicates(),
            ov.no_duplicates(),
            forall|k: int| 0 <= k < order@.len() ==> (#[trigger] issue_in(iv, ov[k])) is Some,
            i <= order@.len(),
            edges == tree_edges(ov.take(i as int), ov, iv),
            string_views(parents@).no_duplicates(),
            parents@.len() == child_lists@.len(),
            forall|p: Seq<char>| #[trigger]
                child_list(string_views(parents@), list_views(child_lists@), p) == children_in(
                    edges,
                    p,
                ),
            forall|k: int|
                0 <= k < parents@.len() ==> ov.contains(#[trigger] string_views(parents@)[k]),
            forall|k: int, m: int|
                0 <= k < child_lists@.len() && 0 <= m < list_views(child_lists@)[k].len()
                    ==> ov.contains(#[trigger] list_views(child_lists@)[k][m]),
            forall|k: int|
                0 <= k < child_lists@.len() ==> (#[trigger] list_views(
                    child_lists@,
                )[k]).no_duplicates(),
            string_views(targets@) == edge_targets(edges),
        decreases order@.len() - i,
    {
        let found = find_issue(issues, order[i].as_str());
        proof {
            assert(ov[i as int] == order@[i as int]@);
            lemma_issue_in_found(iv, ov[i as int]);
            if found is None {
                assert(issue_in(iv, ov[i as int]) is Some);
                let x = issue_in(iv, ov[i as int]).unwrap();
                let q = choose|q: int| 0 <= q < iv.len() && iv[q] == x;
                assert(issues@[q].id@ == order@[i as int]@);
            }
        }
        let pos = found.unwrap();
        proof {
            lemma_issue_in_unique(iv, pos as int);
            assert(iv[pos as int].id == ov[i as int]);
        }
        let deps = &issues[pos].dependencies;
        let ghost id = ov[i as int];
        let ghost dv = iv[pos as int].dependencies;
        let ghost edges_before = edges;
        let mut j: usize = 0;
        proof {
            assert(dv == dependency_views(deps@));
            assert(dv.take(0) =~= seq![]);
            assert(edges == edges_before + issue_edges(id, dv.take(0), ov));
        }
        while j < deps.len()
            invariant
                ov == string_views(order@),
                i < order@.len(),
                id == ov[i as int],
                dv == dependency_views(deps@),
                j <= deps@.len(),
                edges == edges_before + issue_edges(id, dv.take(j as int), ov),
                string_views(parents@).no_duplicates(),
                parents@.len() == child_lists@.len(),
                forall|p: Seq<char>| #[trigger]
                    child_list(string_views(parents@), list_views(child_lists@), p) == children_in(
                        edges,
                        p,
                    ),
                forall|k: int|
                    0 <= k < parents@.len() ==> ov.contains(#[trigger] string_views(parents@)[k]),
                forall|k: int, m: int|
                    0 <= k < child_lists@.len() && 0 <= m < list_views(child_lists@)[k].len()
                        ==> ov.contains(#[trigger] list_views(child_lists@)[k][m]),
                forall|k: int|
                    0 <= k < child_lists@.len() ==> (#[trigger] list_views(
                        child_lists@,
                    )[k]).no_duplicates(),
                string_views(targets@) == edge_targets(edges),
            decreases deps@.len() - j,
        {
            let dep = &deps[j];
            let ghost d = dv[j as int];
            proof {
                assert(d == dep@);
                assert(dv.take(j + 1) =~= dv.take(j as int).push(d));
                assert(dv.take(j + 1).drop_last() =~= dv.take(j as int));
                assert(ov[i as int] == order@[i as int]@);
                assert(ov.contains(id));
            }
            let listed_target = find_string(order, dep.id.as_str()).is_some();
            if listed_target {
                let parent_child = str_eq(dep.dependency_type.as_str(), "parent-child");
                let (p, c) = if parent_child {
                    (dep.id.clone(), order[i].clone())
                } else {
                    (order[i].clone(), dep.id.clone())
                };
                let ghost e = dependency_edge(id, d);
                let ghost old_edges = edges;
                let ghost pv0 = string_views(parents@);
                let ghost lv0 = list_views(child_lists@);
                proof {
                    assert(e == (p@, c@));
                    assert(ov.contains(p@) && ov.contains(c@));
                    edges = edges.push(e);
                    assert(edges =~= edges_before + issue_edges(id, dv.take(j + 1), ov));
                    assert(edges.drop_last() =~= old_edges);
                    lemma_children_in_distinct(old_edges, p@);
                }
                match find_string(&parents, p.as_str()) {
                    None => {
                        proof {
                            lemma_child_list_absent(pv0, lv0, p@);
                        }
                        let mut list: Vec<String> = Vec::new();
                        list.push(c.clone());
                        parents.push(p);
                        child_lists.push(list);
                        proof {
                            let pv1 = string_views(parents@);
                            let lv1 = list_views(child_lists@);
                            assert(pv1 =~= pv0.push(e.0));
                            assert(string_views(list@) =~= seq![c@]);
                            assert(lv1 =~= lv0.push(seq![c@]));
                            assert(seq![c@].no_duplicates());
                            assert forall|q: Seq<char>| #[trigger]
                                child_list(pv1, lv1, q) == children_in(edges, q) by {
                                lemma_child_list_push(pv0, lv0, e.0, seq![c@], q);
                            }
                            assert forall|k: int, m: int|
                                0 <= k < child_lists@.len() && 0 <= m < lv1[k].len()
                                    implies ov.contains(#[trigger] lv1[k][m]) by {
                                if k < lv0.len() {
                                    assert(lv1[k] == lv0[k]);
                                }
                            }
                            assert forall|k: int|
                                0 <= k < parents@.len() implies ov.contains(#[trigger] pv1[k]) by {
                                if k < pv0.len() {
                                    assert(pv1[k] == pv0[k]);
                                }
                            }
                            assert forall|k: int|
                                0 <= k < child_lists@.len() implies (#[trigger] lv1[k]).no_duplicates() by {
                                if k < lv0.len() {
                                    assert(lv1[k] == lv0[k]);
                                }
                            }
                        }
                    },
                    Some(k) => {
                        let ghost before_lists = child_lists@;
                        let mut list = child_lists.remove(k);
                        proof {
                            assert(string_views(list@) == lv0[k as int]);
                            lemma_child_list_found(pv0, lv0, k as int);
                            assert(pv0[k as int] == p@);
                        }
                        let present = find_string(&list, c.as_str()).is_some();
                        let ghost list_before = string_views(list@);
                        if !present {
                            list.push(c.clone());
                            proof {
                                assert(string_views(list@) =~= list_before.push(c@));
                            }
                        }
                        child_lists.insert(k, list);
                        proof {
                            let lnew = string_views(list@);
                            assert(child_lists@ =~= before_lists.update(k as int, list));
                            let lv1 = list_views(child_lists@);
                            assert(lv1 =~= lv0.update(k as int, lnew));
                            assert(lnew == children_in(edges, p@));
                            assert forall|q: Seq<char>| #[trigger]
                                child_list(pv0, lv1, q) == children_in(edges, q) by {
                                lemma_child_list_update(pv0, lv0, k as int, lnew, q);
                            }
                            lemma_children_in_distinct(edges, p@);
                            assert forall|k2: int, m: int|
                                0 <= k2 < child_lists@.len() && 0 <= m < lv1[k2].len()
                                    implies ov.contains(#[trigger] lv1[k2][m]) by {
                                if k2 != k {
                                    assert(lv1[k2] == lv0[k2]);
                                } else if !present && m == lnew.len() - 1 {
                                    assert(lnew[m] == c@);
                                } else {
                                    assert(lnew[m] == list_before[m]);
                                }
                            }
                            assert forall|k2: int|
                                0 <= k2 < child_lists@.len() implies (#[trigger] lv1[k2]).no_duplicates() by {
                                if k2 != k {
                                    assert(lv1[k2] == lv0[k2]);
                                }
                            }
                        }
                    },
                }
                let ghost targets_before = targets@;
                targets.push(c);
                proof {
                    assert(string_views(targets@) =~= string_views(targets_before).push(c@));
                    assert(edge_targets(edges) =~= edge_targets(old_edges).push(e.1));
                }
            } else {
                proof {
                    assert(!ov.contains(d.id));
                    assert(issue_edges(id, dv.take(j + 1), ov) == issue_edges(id, dv.take(j as int), ov));
                }
            }
            j = j + 1;
        }
        proof {
            assert(dv.take(deps@.len() as int) =~= dv);
            assert(ov.take(i + 1).drop_last() =~= ov.take(i as int));
            assert(ov.take(i + 1).last() == id);
            assert(issue_in(iv, id).unwrap().dependencies == dv);
        }
        i = i + 1;
    }
    proof {
        assert(ov.take(order@.len() as int) =~= ov);
    }
    (parents, child_lists, targets)
}

proof fn lemma_is_target_targets(edges: Seq<(Seq<char>, Seq<char>)>, id: Seq<char>)
    ensures
        is_target(edges, id) <==> edge_targets(edges).contains(id),
{
    if is_target(edges, id) {
        let k = choose|k: int| 0 <= k < edges.len() && (#[trigger] edges[k]).1 == id;
        assert(edge_targets(edges)[k] == id);
    }
    if edge_targets(edges).contains(id) {
        let k = choose|k: int| 0 <= k < edge_targets(edges).len() && edge_targets(edges)[k] == id;
        assert(edges[k].1 == id);
    }
}

/// The listed ids that no edge targets, or all of them when that leaves none.
fn compute_roots(
    order: &Vec<String>,
    targets: &Vec<String>,
    Ghost(edges): Ghost<Seq<(Seq<char>, Seq<char>)>>,
) -> (roots: Vec<String>)
    requires
        string_views(targets@) == edge_targets(edges),
    ensures
        string_views(roots@) == roots_of(string_views(order@), edges),
        forall|k: int|
            0 <= k < roots@.len() ==> string_views(order@).contains(#[trigger] string_views(roots@)[k]),
{
    let ghost ov = string_views(order@);
    let mut roots: Vec<String> = Vec::new();
    let mut i: usize = 0;
    proof {
        assert(ov.take(0) =~= seq![]);
        assert(string_views(roots@) =~= seq![]);
    }
    while i < order.len()
        invariant
            ov == string_views(order@),
            string_views(targets@) == edge_targets(edges),
            i <= order@.len(),
            string_views(roots@) == untargeted(ov.take(i as int), edges),
            forall|k: int| 0 <= k < roots@.len() ==> ov.contains(#[trigger] string_views(roots@)[k]),
        decreases order@.len() - i,
    {
        let ghost before = roots@;
        proof {
            lemma_is_target_targets(edges, ov[i as int]);
            assert(ov.take(i + 1).drop_last() =~= ov.take(i as int));
            assert(ov.take(i + 1).last() == ov[i as int]);
            assert(ov[i as int] == order@[i as int]@);
        }
        if find_string(targets, order[i].as_str()).is_none() {
            roots.push(order[i].clone());
            proof {
                assert(string_views(roots@) =~= string_views(before).push(ov[i as int]));
                assert forall|k: int| 0 <= k < roots@.len() implies ov.contains(
                    #[trigger] string_views(roots@)[k],
                ) by {
                    if k < before.len() {
                        assert(string_views(roots@)[k] == string_views(before)[k]);
                    } else {
                        assert(ov[i as int] == string_views(roots@)[k]);
                    }
                }
            }
        }
        i = i + 1;
    }
    proof {
        assert(ov.take(order@.len() as int) =~= ov);
    }
    if roots.len() == 0 {
        let all = clone_strings(order);
        proof {
            assert forall|k: int| 0 <= k < all@.len() implies ov.contains(
                #[trigger] string_views(all@)[k],
            ) by {
                assert(string_views(all@)[k] == ov[k]);
            }
        }
        all
    } else {
        roots
    }
}

impl IssueGraph {
    #[verifier::type_invariant]
    closed spec fn inv(self) -> bool {
        self@.wf()
    }

    /// A copy of the graph.
    pub fn duplicate(&self) -> (g: IssueGraph)
        ensures
            g@ == self@,
    {
        proof {
            use_type_invariant(self);
        }
        let mut issues: Vec<Issue> = Vec::new();
        let mut i: usize = 0;
        while i < self.issues.len()
            invariant
                i <= self.issues@.len(),
                issue_views(issues@) == issue_views(self.issues@).take(i as int),
            decreases self.issues@.len() - i,
        {
            let ghost before = issues@;
            issues.push(self.issues[i].duplicate());
            i = i + 1;
            proof {
                assert(issue_views(issues@) =~= issue_views(before).push(self.issues@[i - 1]@));
                assert(issue_views(issues@) =~= issue_views(self.issues@).take(i as int));
            }
        }
        let mut lists: Vec<Vec<String>> = Vec::new();
        let mut j: usize = 0;
        while j < self.child_lists.len()
            invariant
                j <= self.child_lists@.len(),
                lists@.map_values(|l: Vec<String>| string_views(l@)) == self.child_lists@.map_values(
                    |l: Vec<String>| string_views(l@),
                ).take(j as int),
            decreases self.child_lists@.len() - j,
        {
            let ghost before = lists@;
            let copy = clone_strings(&self.child_lists[j]);
            lists.push(copy);
            j = j + 1;
            proof {
                assert(copy@ == self.child_lists@[j - 1]@);
                assert(lists@.map_values(|l: Vec<String>| string_views(l@)) =~= before.map_values(
                    |l: Vec<String>| string_views(l@),
                ).push(string_views(copy@)));
                assert(lists@.map_values(|l: Vec<String>| string_views(l@)) =~= self.child_lists@.map_values(
                    |l: Vec<String>| string_views(l@),
                ).take(j as int));
            }
        }
        proof {
            assert(issue_views(self.issues@).take(self.issues@.len() as int) =~= issue_views(
                self.issues@,
            ));
            assert(self.child_lists@.map_values(|l: Vec<String>| string_views(l@)).take(
                self.child_lists@.len() as int,
            ) =~= self.child_lists@.map_values(|l: Vec<String>| string_views(l@)));
        }
        let g = IssueGraph {
            issues,
            order: clone_strings(&self.order),
            parents: clone_strings(&self.parents),
            child_lists: lists,
            roots: clone_strings(&self.roots),
        };
        g
    }

    /// The graph of no issues.
    pub(crate) fn empty() -> (g: IssueGraph)
        ensures
            g@ == (IssueGraphView {
                issues: seq![],
                order: seq![],
                parents: seq![],
                child_lists: seq![],
                roots: seq![],
            }),
    {
        let g = IssueGraph {
            issues: Vec::new(),
            order: Vec::new(),
            parents: Vec::new(),
            child_lists: Vec::new(),
            roots: Vec::new(),
        };
        assert(g@.issues =~= seq![]);
        assert(g@.order =~= seq![]);
        assert(g@.parents =~= seq![]);
        assert(g@.child_lists =~= seq![]);
        assert(g@.roots =~= seq![]);
        g
    }

    /// Makes the shape every graph keeps known to the caller's proof.
    pub fn shape(&self)
        ensures
            self@.wf(),
    {
        proof {
            use_type_invariant(self);
        }
    }

    pub fn replace_issue(&mut self, issue: Issue)
        ensures
            forall|id: Seq<char>| #[trigger]
                final(self)@.issue(id) == if id == issue@.id {
                    Some(issue@)
                } else {
                    old(self)@.issue(id)
                },
            final(self)@.order == old(self)@.order,
            final(self)@.parents == old(self)@.parents,
            final(self)@.child_lists == old(self)@.child_lists,
            final(self)@.roots == old(self)@.roots,
    {
        proof {
            use_type_invariant(&*self);
        }
        let ghost before = self@;
        let mut taken = IssueGraph::empty();
        std::mem::swap(self, &mut taken);
        proof {
            use_type_invariant(&taken);
        }
        proof {
            assert(taken@ == before);
        }
        let IssueGraph { mut issues, order, parents, child_lists, roots } = taken;
        proof {
            assert(issue_views(issues@) == before.issues);
            assert(string_views(order@) == before.order);
        }
        match find_issue(&issues, issue.id.as_str()) {
            Some(k) => {
                proof {
                    assert forall|id: Seq<char>| #[trigger]
                        issue_in(before.issues.update(k as int, issue@), id) == if id == issue@.id {
                            Some(issue@)
                        } else {
                            before.issue(id)
                        } by {
                        lemma_issue_in_update(before.issues, k as int, issue@, id);
                    }
                    lemma_issue_in_update(before.issues, k as int, issue@, issue@.id);
                    assert forall|m: int| 0 <= m < before.order.len() implies (#[trigger] issue_in(
                        before.issues.update(k as int, issue@),
                        before.order[m],
                    )) is Some by {
                        lemma_issue_in_update(before.issues, k as int, issue@, before.order[m]);
                    }
                }
                issues.set(k, issue);
                proof {
                    assert(issue_views(issues@) =~= before.issues.update(k as int, issue@));
                    lemma_issue_in_update(before.issues, k as int, issue@, issue@.id);
                }
            },
            None => {
                proof {
                    assert(!ids_of(before.issues).contains(issue@.id)) by {
                        if ids_of(before.issues).contains(issue@.id) {
                            let q = choose|q: int|
                                0 <= q < ids_of(before.issues).len() && ids_of(before.issues)[q]
                                    == issue@.id;
                            assert(before.issues[q].id == issue@.id);
                        }
                    }
                    assert(ids_of(before.issues.push(issue@)) =~= ids_of(before.issues).push(
                        issue@.id,
                    ));
                    assert forall|id: Seq<char>| #[trigger]
                        issue_in(before.issues.push(issue@), id) == if id == issue@.id {
                            Some(issue@)
                        } else {
                            before.issue(id)
                        } by {
                        lemma_issue_in_push(before.issues, issue@, id);
                    }
                    assert forall|m: int| 0 <= m < before.order.len() implies (#[trigger] issue_in(
                        before.issues.push(issue@),
                        before.order[m],
                    )) is Some by {
                        lemma_issue_in_push(before.issues, issue@, before.order[m]);
                    }
                }
                issues.push(issue);
                proof {
                    assert(issue_views(issues@) =~= before.issues.push(issue@));
                }
            },
        }
        proof {
            let v = IssueGraphView {
                issues: issue_views(issues@),
                order: string_views(order@),
                parents: string_views(parents@),
                child_lists: list_views(child_lists@),
                roots: string_views(roots@),
            };
            assert(v.order == before.order);
            assert(v.parents == before.parents);
            assert(v.child_lists == before.child_lists);
            assert(v.roots == before.roots);
            assert forall|m: int| 0 <= m < v.order.len() implies (#[trigger] v.issue(
                v.order[m],
            )) is Some by {
                assert(before.issue(before.order[m]) is Some);
            }
            assert(v.wf());
        }
        let g = IssueGraph { issues, order, parents, child_lists, roots };
        *self = g;
    }

    pub fn issue(&self, id: &str) -> (r: Option<&Issue>)
        ensures
            match r {
                Some(i) => self@.issue(id@) == Some(i@),
                None => self@.issue(id@) is None,
            },
    {
        proof {
            use_type_invariant(self);
        }
        match find_issue(&self.issues, id) {
            Some(k) => {
                proof {
                    lemma_issue_in_unique(self@.issues, k as int);
                }
                Some(&self.issues[k])
            },
            None => {
                proof {
                    lemma_issue_in_found(self@.issues, id@);
                }
                None
            },
        }
    }

    pub fn roots(&self) -> (r: &[String])
        ensures
            string_views(r@) == self@.roots,
    {
        self.roots.as_slice()
    }

    pub fn is_listed(&self, id: &str) -> (r: bool)
        ensures
            r == self@.is_listed(id@),
    {
        find_string(&self.order, id).is_some()
    }

    pub fn tree_children(&self, id: &str) -> (r: &[String])
        ensures
            string_views(r@) == self@.children_of(id@),
    {
        proof {
            use_type_invariant(self);
        }
        match find_string(&self.parents, id) {
            Some(k) => {
                proof {
                    lemma_child_list_found(self@.parents, self@.child_lists, k as int);
                }
                self.child_lists[k].as_slice()
            },
            None => {
                proof {
                    lemma_child_list_absent(self@.parents, self@.child_lists, id@);
                }
                let none: &[String] = &[];
                assert(string_views(none@) =~= seq![]);
                none
            },
        }
    }

    pub fn is_empty(&self) -> (r: bool)
        ensures
            r == (self@.order.len() == 0),
    {
        self.order.len() == 0
    }

    pub fn len(&self) -> (r: usize)
        ensures
            r == self@.order.len(),
    {
        self.order.len()
    }

    /// An optimistic local mirror of `bd close`: the issue leaves the listed
    /// set and joins the context issues, so the view can change before `bd`
    /// confirms.
    pub fn with_issue_closed(&self, issue_id: &str) -> (g: IssueGraph)
        ensures
            g@.built_from(
                listed_without(self@.order, self@.issues, issue_id@),
                context_after_close(self@, issue_id@),
            ),
    {
        proof {
            use_type_invariant(self);
        }
        let ghost sv = self@;
        let mut listed: Vec<Issue> = Vec::new();
        let mut i: usize = 0;
        proof {
            assert(sv.order.take(0) =~= seq![]);
            assert(issue_views(listed@) =~= seq![]);
        }
        while i < self.order.len()
            invariant
                sv == self@,
                sv.wf(),
                i <= sv.order.len(),
                issue_views(listed@) == listed_without(sv.order.take(i as int), sv.issues, issue_id@),
            decreases sv.order.len() - i,
        {
            let ghost before = issue_views(listed@);
            proof {
                assert(sv.order.take(i + 1).drop_last() =~= sv.order.take(i as int));
                assert(sv.order.take(i + 1).last() == sv.order[i as int]);
                assert(sv.order[i as int] == self.order@[i as int]@);
            }
            if !str_eq(self.order[i].as_str(), issue_id) {
                let found = self.issue(self.order[i].as_str());
                proof {
                    assert(sv.issue(sv.order[i as int]) is Some);
                }
                let issue = found.unwrap().duplicate();
                listed.push(issue);
                proof {
                    assert(issue_views(listed@) =~= before.push(issue@));
                }
            }
            i = i + 1;
        }
        proof {
            assert(sv.order.take(sv.order.len() as int) =~= sv.order);
        }
        let mut context: Vec<Issue> = Vec::new();
        let mut k: usize = 0;
        proof {
            assert(sv.issues.take(0) =~= seq![]);
            assert(issue_views(context@) =~= seq![]);
        }
        while k < self.issues.len()
            invariant
                sv == self@,
                k <= sv.issues.len(),
                issue_views(context@) == unlisted(sv.issues.take(k as int), sv.order),
            decreases sv.issues.len() - k,
        {
            let ghost before = issue_views(context@);
            proof {
                assert(sv.issues.take(k + 1).drop_last() =~= sv.issues.take(k as int));
                assert(sv.issues.take(k + 1).last() == sv.issues[k as int]);
                assert(sv.issues[k as int] == self.issues@[k as int]@);
            }
            if !self.is_listed(self.issues[k].id.as_str()) {
                let issue = self.issues[k].duplicate();
                context.push(issue);
                proof {
                    assert(issue_views(context@) =~= before.push(issue@));
                }
            }
            k = k + 1;
        }
        proof {
            assert(sv.issues.take(sv.issues.len() as int) =~= sv.issues);
        }
        let ghost unlisted_part = issue_views(context@);
        match self.issue(issue_id) {
            Some(found) => {
                let mut closed = found.duplicate();
                closed.status = String::from_str("closed");
                context.push(closed);
                proof {
                    assert(closed@ == closed_copy(sv.issue(issue_id@).unwrap()));
                    assert(issue_views(context@) =~= context_after_close(sv, issue_id@));
                }
            },
            None => {
                proof {
                    assert(issue_views(context@) =~= context_after_close(sv, issue_id@));
                }
            },
        }
        IssueGraph::new(listed, context)
    }

    /// The graph of a `bd list --all` answer: open and in-progress issues form
    /// the tree and the others only describe dependency targets; with no open
    /// issue at all the graph is empty.
    pub fn from_loaded(loaded: Vec<Issue>) -> (g: IssueGraph)
        ensures
            with_status(issue_views(loaded@), true).len() == 0 ==> g@.issues.len() == 0
                && g@.order.len() == 0 && g@.roots.len() == 0,
            with_status(issue_views(loaded@), true).len() > 0 ==> g@.built_from(
                with_status(issue_views(loaded@), true),
                with_status(issue_views(loaded@), false),
            ),
    {
        let ghost lv = issue_views(loaded@);
        let mut listed: Vec<Issue> = Vec::new();
        let mut context: Vec<Issue> = Vec::new();
        let mut i: usize = 0;
        proof {
            assert(lv.take(0) =~= seq![]);
            assert(issue_views(listed@) =~= seq![]);
            assert(issue_views(context@) =~= seq![]);
        }
        while i < loaded.len()
            invariant
                lv == issue_views(loaded@),
                i <= lv.len(),
                issue_views(listed@) == with_status(lv.take(i as int), true),
                issue_views(context@) == with_status(lv.take(i as int), false),
            decreases lv.len() - i,
        {
            let ghost l0 = issue_views(listed@);
            let ghost c0 = issue_views(context@);
            proof {
                assert(lv.take(i + 1).drop_last() =~= lv.take(i as int));
                assert(lv.take(i + 1).last() == lv[i as int]);
                assert(lv[i as int] == loaded@[i as int]@);
            }
            let issue = loaded[i].duplicate();
            let open = str_eq(issue.status.as_str(), "open") || str_eq(
                issue.status.as_str(),
                "in_progress",
            );
            if open {
                listed.push(issue);
                proof {
                    assert(issue_views(listed@) =~= l0.push(issue@));
                }
            } else {
                context.push(issue);
                proof {
                    assert(issue_views(context@) =~= c0.push(issue@));
                }
            }
            i = i + 1;
        }
        proof {
            assert(lv.take(lv.len() as int) =~= lv);
        }
        if listed.len() == 0 {
            IssueGraph::empty()
        } else {
            IssueGraph::new(listed, context)
        }
    }

    /// `listed` issues form the tree; `context` issues (closed ones, say) only
    /// describe dependency targets reached through the task view.
    pub fn new(listed_issues: Vec<Issue>, context: Vec<Issue>) -> (g: IssueGraph)
        ensures
            g@.built_from(issue_views(listed_issues@), issue_views(context@)),
    {
        let ghost lv = issue_views(listed_issues@);
        let ghost cv = issue_views(context@);
        let (mut issues, order) = insert_listed(&listed_issues);
        let ghost listed_only = issues@;
        let ghost ov = string_views(order@);
        insert_context(&mut issues, &context);
        proof {
            assert forall|id: Seq<char>| #[trigger]
                issue_in(issue_views(issues@), id) == base_issue(lv, cv, id) by {}
        }
        let ghost with_context = issues@;
        insert_placeholders(&mut issues, Ghost(lv), Ghost(cv));
        let ghost iv = issue_views(issues@);
        proof {
            lemma_dedup(ids_of(lv));
            assert(issues@.take(listed_only.len() as int) == listed_only) by {
                assert(issues@.take(listed_only.len() as int) =~= issues@.take(
                    with_context.len() as int,
                ).take(listed_only.len() as int));
            }
            assert forall|k: int| 0 <= k < order@.len() implies (#[trigger] issue_in(
                iv,
                ov[k],
            )) is Some by {
                assert(ids_of(issue_views(listed_only))[k] == ov[k]);
                assert(issues@[k] == listed_only[k]);
                assert(iv[k].id == ov[k]);
                lemma_issue_in_unique(iv, k);
            }
            assert forall|k: int| 0 <= k < ov.len() implies issue_in(iv, #[trigger] ov[k])
                == issue_in(lv, ov[k]) by {
                assert(ov.contains(ov[k]));
                assert(ids_of(lv).contains(ov[k]));
                let m = choose|m: int| 0 <= m < ids_of(lv).len() && ids_of(lv)[m] == ov[k];
                assert(lv[m].id == ov[k]);
                lemma_issue_in_found(lv, ov[k]);
                assert(holds_issue_for(lv, cv, ov[k], issue_in(iv, ov[k])));
            }
            lemma_tree_edges_agree(ov, ov, iv, lv);
        }
        let (parents, child_lists, targets) = build_tree(&issues, &order);
        let ghost edges = tree_edges(ov, ov, iv);
        let roots = compute_roots(&order, &targets, Ghost(edges));
        proof {
            lemma_untargeted_unique(ov, edges);
            assert(string_views(roots@).no_duplicates());
        }
        let g = IssueGraph { issues, order, parents, child_lists, roots };
        proof {
            assert(g@.issues == iv);
            assert(g@.child_lists == list_views(child_lists@));
            assert forall|p: Seq<char>| #[trigger] g@.children_of(p) == children_in(
                tree_edges(ov, ov, lv),
                p,
            ) by {}
            assert forall|k: int| 0 <= k < g@.order.len() implies (#[trigger] g@.issue(
                g@.order[k],
            )) is Some by {
                assert(issue_in(iv, ov[k]) is Some);
            }
        }
        g
    }
}

} // verus!

verus! {

// ---------------------------------------------------------------------------
// Laws of the graph.

proof fn lemma_dedup_ids(listed: Seq<IssueView>, id: Seq<char>)
    ensures
        dedup(ids_of(listed)).contains(id) <==> exists|k: int|
            0 <= k < listed.len() && (#[trigger] listed[k]).id == id,
{
    lemma_dedup(ids_of(listed));
    if ids_of(listed).contains(id) {
        let k = choose|k: int| 0 <= k < ids_of(listed).len() && ids_of(listed)[k] == id;
        assert(listed[k].id == id);
    }
    if exists|k: int| 0 <= k < listed.len() && (#[trigger] listed[k]).id == id {
        let k = choose|k: int| 0 <= k < listed.len() && (#[trigger] listed[k]).id == id;
        assert(ids_of(listed)[k] == id);
    }
}

/// A graph lists exactly the ids of its listed input issues; its context
/// issues never join the tree.
pub proof fn law_listed_are_the_listed_inputs(
    g: IssueGraphView,
    listed: Seq<IssueView>,
    context: Seq<IssueView>,
    id: Seq<char>,
)
    requires
        g.built_from(listed, context),
    ensures
        g.is_listed(id) <==> exists|k: int| 0 <= k < listed.len() && (#[trigger] listed[k]).id == id,
{
    lemma_dedup_ids(listed, id);
}

/// Every dependency of an issue the graph holds leads to an issue the graph
/// holds: a target that no input describes gets a placeholder, so the edge
/// stays navigable.
pub proof fn law_dependencies_resolve(
    g: IssueGraphView,
    listed: Seq<IssueView>,
    context: Seq<IssueView>,
    id: Seq<char>,
    k: int,
)
    requires
        g.built_from(listed, context),
        g.issue(id) is Some,
        0 <= k < g.issue(id).unwrap().dependencies.len(),
    ensures
        g.issue(g.issue(id).unwrap().dependencies[k].id) is Some,
{
    let i = g.issue(id).unwrap();
    let d = i.dependencies[k];
    assert(holds_issue_for(listed, context, id, g.issue(id)));
    assert(holds_issue_for(listed, context, d.id, g.issue(d.id)));
    if base_issue(listed, context, id) is None {
        let d2 = choose|d2: DependencyView|
            #![trigger is_base_dependency(listed, context, d2)]
            is_base_dependency(listed, context, d2) && d2.id == id && g.issue(id) == Some(
                placeholder(d2),
            );
        assert(i.dependencies.len() == 0);
    } else {
        lemma_issue_in_found(g.issues, id);
        assert(i.id == id);
        assert(i.dependencies.contains(d));
        assert(is_base_dependency(listed, context, d));
    }
}

proof fn lemma_untargeted(ids: Seq<Seq<char>>, edges: Seq<(Seq<char>, Seq<char>)>, x: Seq<char>)
    ensures
        untargeted(ids, edges).contains(x) <==> ids.contains(x) && !is_target(edges, x),
    decreases ids.len(),
{
    if ids.len() > 0 {
        let rest = untargeted(ids.drop_last(), edges);
        lemma_untargeted(ids.drop_last(), edges, x);
        assert(ids[ids.len() - 1] == ids.last());
        if ids.contains(x) && x != ids.last() {
            let k = choose|k: int| 0 <= k < ids.len() && ids[k] == x;
            assert(ids.drop_last()[k] == x);
        }
        if ids.drop_last().contains(x) {
            let k = choose|k: int| 0 <= k < ids.drop_last().len() && ids.drop_last()[k] == x;
            assert(ids[k] == x);
        }
        if !is_target(edges, ids.last()) {
            assert(rest.push(ids.last())[rest.len() as int] == ids.last());
            if rest.contains(x) {
                let k = choose|k: int| 0 <= k < rest.len() && rest[k] == x;
                assert(rest.push(ids.last())[k] == x);
            }
            if rest.push(ids.last()).contains(x) && x != ids.last() {
                let k = choose|k: int| 0 <= k < rest.len() + 1 && rest.push(ids.last())[k] == x;
                assert(rest[k] == x);
            }
        }
    }
}

/// The roots of a graph are its listed issues that no tree edge targets,
/// unless every listed issue is targeted (a graph made only of cycles), in
/// which case every listed issue is a root: a nonempty list never leaves the
/// tree without a root.
pub proof fn law_roots(
    g: IssueGraphView,
    listed: Seq<IssueView>,
    context: Seq<IssueView>,
    id: Seq<char>,
)
    requires
        g.built_from(listed, context),
    ensures
        g.roots.contains(id) ==> g.is_listed(id),
        g.is_listed(id) && !is_target(tree_edges(g.order, g.order, listed), id) ==> g.roots.contains(
            id,
        ),
        (exists|x: Seq<char>| g.is_listed(x) && !is_target(tree_edges(g.order, g.order, listed), x))
            ==> (g.roots.contains(id) ==> !is_target(tree_edges(g.order, g.order, listed), id)),
        g.order.len() > 0 ==> g.roots.len() > 0,
{
    let edges = tree_edges(g.order, g.order, listed);
    lemma_untargeted(g.order, edges, id);
    if g.roots.contains(id) {
        let k = choose|k: int| 0 <= k < g.roots.len() && g.roots[k] == id;
        assert(g.order.contains(g.roots[k]));
    }
    if exists|x: Seq<char>| g.is_listed(x) && !is_target(edges, x) {
        let x = choose|x: Seq<char>| g.is_listed(x) && !is_target(edges, x);
        lemma_untargeted(g.order, edges, x);
        assert(untargeted(g.order, edges).len() > 0);
    }
}

proof fn lemma_issue_edges_contains(
    issue_id: Seq<char>,
    deps: Seq<DependencyView>,
    listed: Seq<Seq<char>>,
    j: int,
)
    requires
        0 <= j < deps.len(),
        listed.contains(deps[j].id),
    ensures
        issue_edges(issue_id, deps, listed).contains(dependency_edge(issue_id, deps[j])),
    decreases deps.len(),
{
    let rest = issue_edges(issue_id, deps.drop_last(), listed);
    if j < deps.len() - 1 {
        assert(deps.drop_last()[j] == deps[j]);
        lemma_issue_edges_contains(issue_id, deps.drop_last(), listed, j);
        let m = choose|m: int| 0 <= m < rest.len() && rest[m] == dependency_edge(issue_id, deps[j]);
        if listed.contains(deps.last().id) {
            assert(rest.push(dependency_edge(issue_id, deps.last()))[m] == rest[m]);
        }
    } else {
        assert(rest.push(dependency_edge(issue_id, deps.last()))[rest.len() as int]
            == dependency_edge(issue_id, deps[j]));
    }
}

proof fn lemma_tree_edges_contains(
    ids: Seq<Seq<char>>,
    listed: Seq<Seq<char>>,
    issues: Seq<IssueView>,
    k: int,
    e: (Seq<char>, Seq<char>),
)
    requires
        0 <= k < ids.len(),
        issue_edges(ids[k], issue_in(issues, ids[k]).unwrap().dependencies, listed).contains(e),
    ensures
        tree_edges(ids, listed, issues).contains(e),
    decreases ids.len(),
{
    let front = tree_edges(ids.drop_last(), listed, issues);
    let back = issue_edges(
        ids.last(),
        issue_in(issues, ids.last()).unwrap().dependencies,
        listed,
    );
    if k < ids.len() - 1 {
        assert(ids.drop_last()[k] == ids[k]);
        lemma_tree_edges_contains(ids.drop_last(), listed, issues, k, e);
        let m = choose|m: int| 0 <= m < front.len() && front[m] == e;
        assert((front + back)[m] == e);
    } else {
        let m = choose|m: int| 0 <= m < back.len() && back[m] == e;
        assert((front + back)[front.len() + m] == e);
    }
}

proof fn lemma_children_in_contains(edges: Seq<(Seq<char>, Seq<char>)>, m: int)
    requires
        0 <= m < edges.len(),
    ensures
        children_in(edges, edges[m].0).contains(edges[m].1),
    decreases edges.len(),
{
    let p = edges[m].0;
    let rest = children_in(edges.drop_last(), p);
    if m < edges.len() - 1 {
        assert(edges.drop_last()[m] == edges[m]);
        lemma_children_in_contains(edges.drop_last(), m);
        let q = choose|q: int| 0 <= q < rest.len() && rest[q] == edges[m].1;
        if edges.last().0 == p && !rest.contains(edges.last().1) {
            assert(rest.push(edges.last().1)[q] == edges[m].1);
        }
    } else {
        if !rest.contains(edges.last().1) {
            assert(rest.push(edges.last().1)[rest.len() as int] == edges[m].1);
        }
    }
}

/// A dependency between two listed issues becomes a tree edge: a
/// `parent-child` dependency puts the issue under its target (the child
/// records its parent), any other type puts the target under the issue.
pub proof fn law_dependency_becomes_tree_edge(
    g: IssueGraphView,
    listed: Seq<IssueView>,
    context: Seq<IssueView>,
    id: Seq<char>,
    j: int,
)
    requires
        g.built_from(listed, context),
        g.is_listed(id),
        0 <= j < issue_in(listed, id).unwrap().dependencies.len(),
        g.is_listed(issue_in(listed, id).unwrap().dependencies[j].id),
    ensures
        ({
            let d = issue_in(listed, id).unwrap().dependencies[j];
            &&& d.dependency_type == "parent-child"@ ==> g.children_of(d.id).contains(id)
            &&& d.dependency_type != "parent-child"@ ==> g.children_of(id).contains(d.id)
        }),
{
    let deps = issue_in(listed, id).unwrap().dependencies;
    let d = deps[j];
    let edges = tree_edges(g.order, g.order, listed);
    let k = choose|k: int| 0 <= k < g.order.len() && g.order[k] == id;
    lemma_issue_edges_contains(id, deps, g.order, j);
    lemma_tree_edges_contains(g.order, g.order, listed, k, dependency_edge(id, d));
    let m = choose|m: int| 0 <= m < edges.len() && edges[m] == dependency_edge(id, d);
    lemma_children_in_contains(edges, m);
    assert(g.children_of(edges[m].0) == children_in(edges, edges[m].0));
}

proof fn lemma_listed_without_ids(
    order: Seq<Seq<char>>,
    issues: Seq<IssueView>,
    id: Seq<char>,
    x: Seq<char>,
)
    requires
        forall|k: int| 0 <= k < order.len() ==> (#[trigger] issue_in(issues, order[k])) is Some,
    ensures
        (exists|k: int|
            0 <= k < listed_without(order, issues, id).len() && (#[trigger] listed_without(
                order,
                issues,
                id,
            )[k]).id == x) <==> (order.contains(x) && x != id),
    decreases order.len(),
{
    let l = listed_without(order, issues, id);
    if order.len() > 0 {
        let rest = listed_without(order.drop_last(), issues, id);
        assert forall|k: int| 0 <= k < order.drop_last().len() implies (#[trigger] issue_in(
            issues,
            order.drop_last()[k],
        )) is Some by {
            assert(order.drop_last()[k] == order[k]);
        }
        lemma_listed_without_ids(order.drop_last(), issues, id, x);
        let last = order.last();
        assert(order[order.len() - 1] == last);
        assert(issue_in(issues, last) is Some);
        lemma_issue_in_found(issues, last);
        if exists|k: int| 0 <= k < l.len() && (#[trigger] l[k]).id == x {
            let k = choose|k: int| 0 <= k < l.len() && (#[trigger] l[k]).id == x;
            if k < rest.len() {
                assert(rest[k] == l[k]);
                let q = choose|q: int| 0 <= q < order.drop_last().len() && order.drop_last()[q] == x;
                assert(order[q] == x);
            } else {
                assert(l[k] == issue_in(issues, last).unwrap());
            }
        }
        if order.contains(x) && x != id {
            let q = choose|q: int| 0 <= q < order.len() && order[q] == x;
            if q < order.len() - 1 {
                assert(order.drop_last()[q] == x);
                let k = choose|k: int| 0 <= k < rest.len() && (#[trigger] rest[k]).id == x;
                if last != id {
                    assert(l[k] == rest[k]);
                }
            } else {
                assert(l[rest.len() as int].id == x);
            }
        }
    }
}

proof fn lemma_unlisted_excludes(issues: Seq<IssueView>, order: Seq<Seq<char>>, id: Seq<char>)
    requires
        order.contains(id),
    ensures
        first_issue_in(unlisted(issues, order), id) is None,
    decreases issues.len(),
{
    if issues.len() > 0 {
        lemma_unlisted_excludes(issues.drop_last(), order, id);
        let rest = unlisted(issues.drop_last(), order);
        if !order.contains(issues.last().id) {
            lemma_first_issue_in_push(rest, issues.last(), id);
        }
    }
}

/// Closing an issue takes it off the tree and keeps it, closed, for the task
/// view, while every other listed issue stays listed.
pub proof fn law_closing_unlists(g: IssueGraphView, id: Seq<char>, closed: IssueGraphView, x: Seq<char>)
    requires
        g.wf(),
        closed.built_from(listed_without(g.order, g.issues, id), context_after_close(g, id)),
    ensures
        !closed.is_listed(id),
        x != id ==> (closed.is_listed(x) <==> g.is_listed(x)),
        g.is_listed(id) ==> closed.issue(id) == Some(closed_copy(g.issue(id).unwrap())),
{
    let l = listed_without(g.order, g.issues, id);
    let c = context_after_close(g, id);
    assert forall|k: int| 0 <= k < g.order.len() implies (#[trigger] issue_in(
        g.issues,
        g.order[k],
    )) is Some by {
        assert(g.issue(g.order[k]) is Some);
    }
    lemma_listed_without_ids(g.order, g.issues, id, id);
    lemma_listed_without_ids(g.order, g.issues, id, x);
    law_listed_are_the_listed_inputs(closed, l, c, id);
    law_listed_are_the_listed_inputs(closed, l, c, x);
    if g.is_listed(id) {
        let k = choose|k: int| 0 <= k < g.order.len() && g.order[k] == id;
        assert(g.issue(g.order[k]) is Some);
        let i = g.issue(id).unwrap();
        lemma_issue_in_found(g.issues, id);
        lemma_issue_in_found(l, id);
        lemma_unlisted_excludes(g.issues, g.order, id);
        lemma_first_issue_in_push(unlisted(g.issues, g.order), closed_copy(i), id);
        assert(c =~= unlisted(g.issues, g.order).push(closed_copy(i)));
        assert(forall|k: int| 0 <= k < l.len() ==> (#[trigger] l[k]).id != id);
        assert(issue_in(l, id) is None);
        assert(first_issue_in(c, id) == Some(closed_copy(i)));
        assert(base_issue(l, c, id) == Some(closed_copy(i)));
        assert(holds_issue_for(l, c, id, closed.issue(id)));
    }
}

} // verus!
